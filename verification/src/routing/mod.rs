use vstd::prelude::*;
use crate::bundle::Bundle;
use crate::contact_manager::{ContactManager, ContactManagerTxData};
use crate::errors::ASABRError;
use crate::multigraph::Multigraph;
use crate::node_manager::NodeManager;
use crate::pathfinding::PathFindingOutput;
use crate::route_stage::{path_of, same_stage, PathHop, RouteStage, ViaHop};
use crate::types::{date_min, min_u64, sat_add, sat_sub, Date, NodeID};

pub mod spsn;
pub mod volcgr;

verus! {

/// The first hop of a routing decision, with the stages at which the
/// destinations reached through it are reached.
#[derive(Debug)]
pub struct FirstHop {
    /// The contact to send the bundle on.
    pub contact: PathHop,
    /// The stages reaching the destinations through this contact.
    pub stages: Vec<RouteStage>,
}

/// A routing decision: the contacts to send the bundle on.
#[derive(Debug)]
pub struct RoutingOutput {
    pub first_hops: Vec<FirstHop>,
}

impl RoutingOutput {
    /// A decision to send nothing.
    pub fn empty() -> (r: Self)
        ensures
            r.first_hops@.len() == 0,
    {
        RoutingOutput { first_hops: Vec::new() }
    }

    /// The first hop towards `destination` and the stage that reaches it, if any.
    pub fn lazy_get_for_unicast(&self, destination: NodeID) -> (r: Option<(PathHop, RouteStage)>)
        ensures
            r matches Some((c, st)) ==> st.to_node == destination && exists|i: int, j: int|
                0 <= i < self.first_hops@.len() && 0 <= j < self.first_hops@[i].stages@.len()
                    && self.first_hops@[i].contact == c && same_stage(st, #[trigger] self.first_hops@[i].stages@[j])
                    && (forall|a: int, b: int|
                    0 <= a < self.first_hops@.len() && 0 <= b < self.first_hops@[a].stages@.len() && (a < i || (a
                        == i && b < j)) ==> (#[trigger] self.first_hops@[a].stages@[b]).to_node != destination),
            r is None ==> forall|i: int, j: int|
                0 <= i < self.first_hops@.len() && 0 <= j < self.first_hops@[i].stages@.len()
                    ==> (#[trigger] self.first_hops@[i].stages@[j]).to_node != destination,
    {
        let mut i: usize = 0;
        while i < self.first_hops.len()
            invariant
                0 <= i <= self.first_hops@.len(),
                forall|a: int, j: int|
                    0 <= a < i && 0 <= j < self.first_hops@[a].stages@.len()
                        ==> (#[trigger] self.first_hops@[a].stages@[j]).to_node != destination,
            decreases self.first_hops@.len() - i,
        {
            let fh = &self.first_hops[i];
            let mut j: usize = 0;
            while j < fh.stages.len()
                invariant
                    0 <= j <= fh.stages@.len(),
                    i < self.first_hops@.len(),
                    fh == self.first_hops@[i as int],
                    forall|b: int| 0 <= b < j ==> (#[trigger] fh.stages@[b]).to_node != destination,
                    forall|a: int, b: int|
                        0 <= a < i && 0 <= b < self.first_hops@[a].stages@.len()
                            ==> (#[trigger] self.first_hops@[a].stages@[b]).to_node != destination,
                decreases fh.stages@.len() - j,
            {
                if fh.stages[j].to_node == destination {
                    assert(self.first_hops@[i as int].contact == fh.contact);
                    let st = fh.stages[j].duplicate();
                    assert(same_stage(st, self.first_hops@[i as int].stages@[j as int]));
                    assert forall|a: int, b: int|
                        0 <= a < self.first_hops@.len() && 0 <= b < self.first_hops@[a].stages@.len() && (a < i || (
                        a == i && b < j)) implies (#[trigger] self.first_hops@[a].stages@[b]).to_node
                        != destination by {
                        if a == i {
                            assert(fh.stages@[b] == self.first_hops@[a].stages@[b]);
                        }
                    }
                    return Some((fh.contact, st));
                }
                j = j + 1;
            }
            i = i + 1;
        }
        None
    }
}

/// The way of routing bundles from one node of a network.
pub trait Router {
    /// The well-formedness of the router's state.
    spec fn wf(&self) -> bool;

    /// Decides where `bundle`, held by `source` at `curr_time`, is sent, never
    /// through `excluded_nodes`.
    fn route(
        &mut self,
        source: NodeID,
        bundle: &Bundle,
        curr_time: Date,
        excluded_nodes: &[NodeID],
    ) -> (r: Result<Option<RoutingOutput>, ASABRError>)
        requires
            old(self).wf(),
        ensures
            final(self).wf(),
            bundle.expiration < curr_time ==> r matches Ok(None),
    ;
}

/// What the hop `hop` gives `bundle` at `at_time` in `graph`, nodes' consent included.
pub open spec fn hop_result<NM: NodeManager, CM: ContactManager>(
    graph: Multigraph<NM, CM>,
    hop: PathHop,
    at_time: Date,
    bundle: Bundle,
) -> Option<ContactManagerTxData> {
    if hop.tx_node >= graph.nodes@.len() {
        None
    } else {
    match graph.slot_of(hop.tx_node as int, hop.rx_node) {
        None => None,
        Some(s) => {
            let cs = graph.senders@[hop.tx_node as int]@[s].contacts@;
            if hop.contact >= cs.len() {
                None
            } else {
                let c = cs[hop.contact as int];
                match c.manager.tx_spec(c.info, at_time, bundle.priority, bundle.size) {
                    None => None,
                    Some(h) => if graph.nodes@[hop.tx_node as int].manager.tx_accepts(
                        at_time,
                        h.tx_start,
                        h.tx_end,
                        bundle,
                    ) && graph.nodes@[hop.rx_node as int].manager.rx_accepts(
                        sat_add(h.tx_start, h.delay),
                        h.arrival,
                        bundle,
                    ) {
                        Some(h)
                    } else {
                        None
                    },
                }
            }
        },
    }
    }
}

/// The date at which `bundle`, sent at `at_time`, is at the end of `path` in
/// `graph`, each hop taken as soon as the previous one has arrived.
pub open spec fn path_arrival<NM: NodeManager, CM: ContactManager>(
    graph: Multigraph<NM, CM>,
    path: Seq<PathHop>,
    at_time: Date,
    bundle: Bundle,
) -> Option<Date>
    decreases path.len(),
{
    if path.len() == 0 {
        Some(at_time)
    } else {
        match path_arrival(graph, path.drop_last(), at_time, bundle) {
            None => None,
            Some(a) => match hop_result(graph, path.last(), a, bundle) {
                Some(h) => Some(h.arrival),
                None => None,
            },
        }
    }
}

/// The slot of the receiver `rx` among those of `tx`.
pub fn find_slot<NM: NodeManager, CM: ContactManager>(
    graph: &Multigraph<NM, CM>,
    tx: NodeID,
    rx: NodeID,
) -> (r: Option<usize>)
    requires
        graph.wf(),
    ensures
        (tx as int) < graph.nodes@.len() ==> match r {
            Some(s) => graph.slot_of(tx as int, rx) == Some(s as int),
            None => graph.slot_of(tx as int, rx) is None,
        },
        r matches Some(s) ==> (tx as int) < graph.nodes@.len() && s < graph.senders@[tx as int]@.len()
            && graph.senders@[tx as int]@[s as int].rx == rx,
        (tx as int) >= graph.nodes@.len() ==> r is None,
{
    let t = tx as usize;
    if t >= graph.senders.len() {
        return None;
    }
    let receivers = &graph.senders[t];
    let mut s: usize = 0;
    while s < receivers.len()
        invariant
            graph.wf(),
            t == tx as int,
            t < graph.senders@.len(),
            receivers == graph.senders@[t as int],
            0 <= s <= receivers@.len(),
            forall|j: int| 0 <= j < s ==> (#[trigger] receivers@[j]).rx != rx,
        decreases receivers@.len() - s,
    {
        if receivers[s].rx == rx {
            proof {
                assert(receivers@[s as int].rx == rx);
                assert(graph.senders@[t as int]@[s as int].rx == rx);
                let c = choose|c: int| 0 <= c < graph.senders@[t as int]@.len() && (#[trigger] graph.senders@[t as int]@[c]).rx == rx;
                if c != s as int {
                    if c < s {
                        assert(receivers@[c].rx != rx);
                    } else {
                        assert(graph.senders@[t as int]@[s as int].rx != graph.senders@[t as int]@[c].rx);
                    }
                }
            }
            return Some(s);
        }
        s = s + 1;
    }
    None
}

/// The stage reached from `prev` by the hop `hop`, transmitted as `d` says.
pub fn next_stage(prev: &RouteStage, hop: PathHop, d: &ContactManagerTxData) -> (r: RouteStage)
    ensures
        r.at_time == d.arrival,
        r.to_node == hop.rx_node,
        r.hop_count == if prev.hop_count == 0xffff_ffff {
            prev.hop_count
        } else {
            (prev.hop_count + 1) as u32
        },
        r.cumulative_delay == sat_add(prev.cumulative_delay, d.delay),
        r.expiration == min_u64(sat_sub(d.expiration, prev.cumulative_delay), prev.expiration),
        path_of(r) == path_of(*prev).push(hop),
        r.route@ == Seq::<PathHop>::empty(),
{
    let mut st = RouteStage::new(
        d.arrival,
        hop.rx_node,
        Some(
            ViaHop {
                contact: hop.contact,
                parent_route: Box::new(prev.duplicate()),
                tx_node: hop.tx_node,
                rx_node: hop.rx_node,
            },
        ),
    );
    st.hop_count = prev.hop_count.saturating_add(1);
    st.cumulative_delay = prev.cumulative_delay.saturating_add(d.delay);
    st.expiration = date_min(d.expiration.saturating_sub(prev.cumulative_delay), prev.expiration);
    st
}

/// `g2` is `g` after booking `hop`: the nodes and the contacts stay where they
/// are, with the same information, and all stays well formed; only the manager
/// of the hop's contact and those of the hop's two nodes may have changed.
pub open spec fn books<NM: NodeManager, CM: ContactManager>(
    g: Multigraph<NM, CM>,
    g2: Multigraph<NM, CM>,
    hop: PathHop,
) -> bool {
    &&& g2.wf()
    &&& g2.nodes@.len() == g.nodes@.len()
    &&& forall|i: int| 0 <= i < g.nodes@.len() ==> (#[trigger] g2.nodes@[i]).info == g.nodes@[i].info
    &&& forall|i: int|
        0 <= i < g.nodes@.len() && i != hop.tx_node && i != hop.rx_node ==> #[trigger] g2.nodes@[i]
            == g.nodes@[i]
    &&& g2.senders@.len() == g.senders@.len()
    &&& forall|t: int| 0 <= t < g.senders@.len() ==> (#[trigger] g2.senders@[t])@.len() == g.senders@[t]@.len()
    &&& forall|t: int, s: int|
        0 <= t < g.senders@.len() && 0 <= s < g.senders@[t]@.len() ==> (#[trigger] g2.senders@[t]@[s]).rx
            == g.senders@[t]@[s].rx && g2.senders@[t]@[s].contacts@.len() == g.senders@[t]@[s].contacts@.len()
    &&& forall|t: int, s: int, c: int|
        0 <= t < g.senders@.len() && 0 <= s < g.senders@[t]@.len() && 0 <= c
            < g.senders@[t]@[s].contacts@.len() ==> (#[trigger] g2.senders@[t]@[s].contacts@[c]).info
            == g.senders@[t]@[s].contacts@[c].info && (!(t == hop.tx_node && g.senders@[t]@[s].rx
            == hop.rx_node && c == hop.contact) ==> g2.senders@[t]@[s].contacts@[c]
            == g.senders@[t]@[s].contacts@[c])
}

/// In `g2`, the manager of the contact of `hop` is that of `g` after booking
/// on it the transmission of `bundle` asked at `at_time`, and the managers of
/// the sending and receiving nodes are those of `g` after booking the sending
/// and then the reception of that transmission.
pub open spec fn consumes<NM: NodeManager, CM: ContactManager>(
    g: Multigraph<NM, CM>,
    g2: Multigraph<NM, CM>,
    hop: PathHop,
    at_time: Date,
    bundle: Bundle,
) -> bool {
    let t = hop.tx_node as int;
    let r = hop.rx_node as int;
    match g.slot_of(t, hop.rx_node) {
        Some(s) => {
            let c = g.senders@[t]@[s].contacts@[hop.contact as int];
            let h = c.manager.tx_spec(c.info, at_time, bundle.priority, bundle.size)->0;
            &&& hop.contact < g.senders@[t]@[s].contacts@.len()
            &&& c.manager.booked(
                g2.senders@[t]@[s].contacts@[hop.contact as int].manager,
                c.info,
                at_time,
                bundle.priority,
                bundle.size,
            )
            &&& exists|mid: NM|
                #[trigger] g.nodes@[t].manager.tx_booked(mid, at_time, h.tx_start, h.tx_end, bundle) && (if r == t {
                    mid.rx_booked(g2.nodes@[r].manager, sat_add(h.tx_start, h.delay), h.arrival, bundle)
                } else {
                    g2.nodes@[t].manager == mid && g.nodes@[r].manager.rx_booked(
                        g2.nodes@[r].manager,
                        sat_add(h.tx_start, h.delay),
                        h.arrival,
                        bundle,
                    )
                })
        },
        None => false,
    }
}

/// What the hop `hop` gives `bundle` at `at_time`, nodes' consent included.
pub fn dry_run_hop<NM: NodeManager, CM: ContactManager>(
    graph: &Multigraph<NM, CM>,
    hop: PathHop,
    at_time: Date,
    bundle: &Bundle,
) -> (r: Option<ContactManagerTxData>)
    requires
        graph.wf(),
    ensures
        r == hop_result(*graph, hop, at_time, *bundle),
{
    let s = match find_slot(graph, hop.tx_node, hop.rx_node) {
        None => {
            return None;
        },
        Some(s) => s,
    };
    let t = hop.tx_node as usize;
    let receiver = &graph.senders[t][s];
    proof {
        assert(graph.receiver_wf(t as int, s as int));
    }
    if hop.contact >= receiver.contacts.len() {
        return None;
    }
    let c = &receiver.contacts[hop.contact];
    match c.manager.dry_run_tx(&c.info, at_time, bundle) {
        None => None,
        Some(h) => {
            if graph.nodes[t].manager.dry_run_tx(at_time, h.tx_start, h.tx_end, bundle)
                && graph.nodes[hop.rx_node as usize].manager.dry_run_rx(
                h.tx_start.saturating_add(h.delay),
                h.arrival,
                bundle,
            ) {
                Some(h)
            } else {
                None
            }
        },
    }
}

/// Books the hop `hop` for `bundle` at `at_time`, if the contact and both nodes accept it.
pub fn schedule_hop<NM: NodeManager, CM: ContactManager>(
    graph: &mut Multigraph<NM, CM>,
    hop: PathHop,
    at_time: Date,
    bundle: &Bundle,
) -> (r: Option<ContactManagerTxData>)
    requires
        old(graph).wf(),
    ensures
        final(graph).wf(),
        final(graph).nodes@.len() == old(graph).nodes@.len(),
        r == hop_result(
            *old(graph),
            hop,
            at_time,
            *bundle,
        ),
        r is None ==> *final(graph) == *old(graph),
        r is Some ==> books(*old(graph), *final(graph), hop) && consumes(
            *old(graph),
            *final(graph),
            hop,
            at_time,
            *bundle,
        ),
{
    let s = match find_slot(graph, hop.tx_node, hop.rx_node) {
        None => {
            return None;
        },
        Some(s) => s,
    };
    let t = hop.tx_node as usize;
    let rx = hop.rx_node as usize;
    proof {
        assert(graph.receiver_wf(t as int, s as int));
    }
    if hop.contact >= graph.senders[t][s].contacts.len() {
        return None;
    }
    let info = graph.senders[t][s].contacts[hop.contact].info;
    let h = match graph.senders[t][s].contacts[hop.contact].manager.dry_run_tx(&info, at_time, bundle) {
        None => {
            return None;
        },
        Some(h) => h,
    };
    if !(graph.nodes[t].manager.dry_run_tx(at_time, h.tx_start, h.tx_end, bundle)
        && graph.nodes[rx].manager.dry_run_rx(h.tx_start.saturating_add(h.delay), h.arrival, bundle)) {
        return None;
    }
    let ghost g0 = *graph;
    let booked = graph.senders[t][s].contacts[hop.contact].manager.schedule_tx(&info, at_time, bundle);
    proof {
        assert forall|t2: int, s2: int|
            0 <= t2 < graph.senders@.len() && 0 <= s2 < graph.senders@[t2]@.len() implies graph.receiver_wf(
            t2,
            s2,
        ) by {
            assert(g0.receiver_wf(t2, s2));
            if t2 == t && s2 == s {
                let cs = graph.senders@[t2]@[s2].contacts@;
                let cs0 = g0.senders@[t2]@[s2].contacts@;
                assert forall|k: int| 0 <= k < cs.len() implies (#[trigger] cs[k]).info.tx_node == t2
                    && cs[k].info.rx_node == graph.senders@[t2]@[s2].rx && cs[k].manager.wf() by {
                    if k != hop.contact {
                        assert(cs[k] == cs0[k]);
                    }
                }
                assert forall|i: int, j: int| 0 <= i < j < cs.len() implies #[trigger] cs[i].info.start
                    <= #[trigger] cs[j].info.start by {
                    assert(cs[i].info == cs0[i].info);
                    assert(cs[j].info == cs0[j].info);
                }
            } else {
                assert(graph.senders@[t2]@[s2] == g0.senders@[t2]@[s2]);
            }
        }
        assert forall|t2: int, s1: int, s2: int|
            0 <= t2 < graph.senders@.len() && 0 <= s1 < s2 < graph.senders@[t2]@.len()
                implies #[trigger] graph.senders@[t2]@[s1].rx != #[trigger] graph.senders@[t2]@[s2].rx by {
            assert(graph.senders@[t2]@[s1].rx == g0.senders@[t2]@[s1].rx);
            assert(graph.senders@[t2]@[s2].rx == g0.senders@[t2]@[s2].rx);
        }
    }
    if booked.is_some() {
        let ghost g1 = *graph;
        let _ = graph.nodes[t].manager.schedule_tx(at_time, h.tx_start, h.tx_end, bundle);
        let ghost g_mid = *graph;
        let _ = graph.nodes[rx].manager.schedule_rx(h.tx_start.saturating_add(h.delay), h.arrival, bundle);
        proof {
            assert forall|i: int| 0 <= i < graph.nodes@.len() implies (#[trigger] graph.nodes@[i]).info.id
                == i by {
                assert(graph.nodes@[i].info == g1.nodes@[i].info);
            }
            assert forall|t2: int, s2: int|
                0 <= t2 < graph.senders@.len() && 0 <= s2 < graph.senders@[t2]@.len() implies graph.receiver_wf(
                t2,
                s2,
            ) by {
                assert(g1.receiver_wf(t2, s2));
            }
            assert(g1.nodes@ == g0.nodes@);
            assert(graph.senders@ == g1.senders@);
            assert forall|i: int| 0 <= i < g0.nodes@.len() implies (#[trigger] graph.nodes@[i]).info
                == g0.nodes@[i].info by {
                assert(graph.nodes@[i].info == g1.nodes@[i].info);
            }
            assert forall|i: int|
                0 <= i < g0.nodes@.len() && i != hop.tx_node && i != hop.rx_node implies #[trigger] graph.nodes@[i]
                    == g0.nodes@[i] by {
                assert(graph.nodes@[i] == g1.nodes@[i]);
            }
            assert forall|t2: int| 0 <= t2 < g0.senders@.len() implies (#[trigger] graph.senders@[t2])@.len()
                == g0.senders@[t2]@.len() by {
                if t2 != t {
                    assert(g1.senders@[t2] == g0.senders@[t2]);
                }
            }
            assert forall|t2: int, s2: int|
                0 <= t2 < g0.senders@.len() && 0 <= s2 < g0.senders@[t2]@.len() implies (
                #[trigger] graph.senders@[t2]@[s2]).rx == g0.senders@[t2]@[s2].rx
                    && graph.senders@[t2]@[s2].contacts@.len() == g0.senders@[t2]@[s2].contacts@.len() by {
                if t2 != t || s2 != s {
                    assert(g1.senders@[t2]@[s2] == g0.senders@[t2]@[s2]);
                }
            }
            assert forall|t2: int, s2: int, c: int|
                0 <= t2 < g0.senders@.len() && 0 <= s2 < g0.senders@[t2]@.len() && 0 <= c
                    < g0.senders@[t2]@[s2].contacts@.len() implies (#[trigger] graph.senders@[t2]@[s2].contacts@[c]).info
                    == g0.senders@[t2]@[s2].contacts@[c].info && (!(t2 == hop.tx_node && g0.senders@[t2]@[s2].rx
                    == hop.rx_node && c == hop.contact) ==> graph.senders@[t2]@[s2].contacts@[c]
                    == g0.senders@[t2]@[s2].contacts@[c]) by {
                if t2 != t || s2 != s {
                    assert(g1.senders@[t2]@[s2] == g0.senders@[t2]@[s2]);
                } else if c != hop.contact {
                    assert(g1.senders@[t2]@[s2].contacts@[c] == g0.senders@[t2]@[s2].contacts@[c]);
                }
            }
            assert(books(g0, *graph, hop));
            assert(g0.slot_of(t as int, hop.rx_node) == Some(s as int));
            assert(graph.senders@[t as int]@[s as int].contacts@[hop.contact as int] == g1.senders@[t as int]@[s as int].contacts@[hop.contact as int]);
            let mid = g_mid.nodes@[t as int].manager;
            assert(g0.nodes@[t as int].manager.tx_booked(mid, at_time, h.tx_start, h.tx_end, *bundle));
            if rx != t {
                assert(g_mid.nodes@[rx as int] == g0.nodes@[rx as int]);
                assert(graph.nodes@[t as int] == g_mid.nodes@[t as int]);
            }
            assert(consumes(g0, *graph, hop, at_time, *bundle));
        }
    }
    booked
}

/// The date at which `bundle`, sent at `at_time`, is at the end of `path`, hop
/// `i` being taken in `gs[i]`, each as soon as the one before it has arrived.
pub open spec fn booked_walk<NM: NodeManager, CM: ContactManager>(
    gs: Seq<Multigraph<NM, CM>>,
    path: Seq<PathHop>,
    at_time: Date,
    bundle: Bundle,
) -> Option<Date>
    decreases path.len(),
{
    if path.len() == 0 {
        Some(at_time)
    } else {
        match booked_walk(gs, path.drop_last(), at_time, bundle) {
            None => None,
            Some(a) => match hop_result(gs[path.len() - 1], path.last(), a, bundle) {
                Some(h) => Some(h.arrival),
                None => None,
            },
        }
    }
}

/// `gs` are the states of the graph while the hops of `path` are booked from
/// `at_time`: `gs[0]` is `g`, each state is the one before it after booking
/// the next hop, and the last one is `g2`. Booking stops at the first hop that
/// cannot be taken, and `end` is then `None`; where every hop is booked, `end`
/// is the date at the end of the path.
pub open spec fn path_trace<NM: NodeManager, CM: ContactManager>(
    gs: Seq<Multigraph<NM, CM>>,
    g: Multigraph<NM, CM>,
    g2: Multigraph<NM, CM>,
    path: Seq<PathHop>,
    at_time: Date,
    bundle: Bundle,
    end: Option<Date>,
) -> bool {
    let k = gs.len() - 1;
    &&& 1 <= gs.len() <= path.len() + 1
    &&& gs[0] == g
    &&& gs[k] == g2
    &&& forall|i: int| 0 <= i < k ==> books(gs[i], #[trigger] gs[i + 1], path[i])
    &&& forall|i: int|
        0 <= i < k ==> consumes(
            gs[i],
            #[trigger] gs[i + 1],
            path[i],
            booked_walk(gs, path.take(i), at_time, bundle)->0,
            bundle,
        )
    &&& booked_walk(gs, path.take(k), at_time, bundle) is Some
    &&& if k < path.len() {
        &&& end is None
        &&& hop_result(gs[k], path[k], booked_walk(gs, path.take(k), at_time, bundle)->0, bundle) is None
    } else {
        end == booked_walk(gs, path, at_time, bundle)
    }
}

/// `g2` is `g` after booking the hops of `path` from `at_time`, each as soon as
/// the one before it has arrived, up to the first that cannot be booked; `end`
/// is the date at the end of the path where every hop was booked, `None` otherwise.
pub open spec fn books_path<NM: NodeManager, CM: ContactManager>(
    g: Multigraph<NM, CM>,
    g2: Multigraph<NM, CM>,
    path: Seq<PathHop>,
    at_time: Date,
    bundle: Bundle,
    end: Option<Date>,
) -> bool {
    exists|gs: Seq<Multigraph<NM, CM>>| #[trigger] path_trace(gs, g, g2, path, at_time, bundle, end)
}

/// A walk depends only on the states in which its hops are taken.
pub proof fn lemma_booked_walk_prefix<NM: NodeManager, CM: ContactManager>(
    gs: Seq<Multigraph<NM, CM>>,
    gs2: Seq<Multigraph<NM, CM>>,
    path: Seq<PathHop>,
    at_time: Date,
    bundle: Bundle,
)
    requires
        forall|j: int| 0 <= j < path.len() ==> #[trigger] gs[j] == gs2[j],
    ensures
        booked_walk(gs, path, at_time, bundle) == booked_walk(gs2, path, at_time, bundle),
    decreases path.len(),
{
    if path.len() > 0 {
        lemma_booked_walk_prefix(gs, gs2, path.drop_last(), at_time, bundle);
        assert(gs[path.len() - 1] == gs2[path.len() - 1]);
    }
}

/// A prefix of a path that leads nowhere makes the whole path lead nowhere.
pub proof fn lemma_path_arrival_prefix_none<NM: NodeManager, CM: ContactManager>(
    graph: Multigraph<NM, CM>,
    path: Seq<PathHop>,
    k: int,
    at_time: Date,
    bundle: Bundle,
)
    requires
        0 <= k <= path.len(),
        path_arrival(graph, path.take(k), at_time, bundle) is None,
    ensures
        path_arrival(graph, path, at_time, bundle) is None,
    decreases path.len() - k,
{
    if k < path.len() {
        assert(path.take(k + 1).drop_last() =~= path.take(k));
        lemma_path_arrival_prefix_none(graph, path, k + 1, at_time, bundle);
    } else {
        assert(path.take(k) =~= path);
    }
}

/// Walks `path` from `source` at `curr_time` without booking anything, and
/// returns the stage at its end, if every hop can be made.
pub fn dry_run_unicast_path<NM: NodeManager, CM: ContactManager>(
    bundle: &Bundle,
    curr_time: Date,
    source: NodeID,
    path: &[PathHop],
    graph: &Multigraph<NM, CM>,
) -> (r: Option<RouteStage>)
    requires
        graph.wf(),
    ensures
        match r {
            Some(st) => path_arrival(*graph, path@, curr_time, *bundle) == Some(st.at_time),
            None => path_arrival(*graph, path@, curr_time, *bundle) is None,
        },
{
    let mut stage = RouteStage::new(curr_time, source, None);
    let mut i: usize = 0;
    assert(path@.take(0) =~= Seq::<PathHop>::empty());
    while i < path.len()
        invariant
            graph.wf(),
            0 <= i <= path@.len(),
            path_arrival(*graph, path@.take(i as int), curr_time, *bundle) == Some(stage.at_time),
        decreases path@.len() - i,
    {
        let hop = path[i];
        assert(path@.take(i + 1).drop_last() =~= path@.take(i as int));
        assert(path@.take(i + 1).last() == hop);
        match dry_run_hop(graph, hop, stage.at_time, bundle) {
            None => {
                proof {
                    lemma_path_arrival_prefix_none(*graph, path@, i + 1, curr_time, *bundle);
                }
                return None;
            },
            Some(d) => {
                stage = next_stage(&stage, hop, &d);
            },
        }
        i = i + 1;
    }
    assert(path@.take(path@.len() as int) =~= path@);
    Some(stage)
}

/// Books every hop of `path` from `source` at `curr_time`, each as soon as the
/// previous one has arrived, and returns the stage at its end; `None` as soon
/// as a hop cannot be booked.
pub fn schedule_unicast_path<NM: NodeManager, CM: ContactManager>(
    bundle: &Bundle,
    curr_time: Date,
    source: NodeID,
    path: &[PathHop],
    graph: &mut Multigraph<NM, CM>,
) -> (r: Option<RouteStage>)
    requires
        old(graph).wf(),
    ensures
        final(graph).wf(),
        final(graph).nodes@.len() == old(graph).nodes@.len(),
        path@.len() == 0 ==> (r matches Some(st) && st.at_time == curr_time && st.to_node == source),
        path@.len() > 0 ==> (r matches Some(st) ==> st.to_node == path@.last().rx_node),
        books_path(
            *old(graph),
            *final(graph),
            path@,
            curr_time,
            *bundle,
            match r {
                Some(st) => Some(st.at_time),
                None => None,
            },
        ),
{
    let mut stage = RouteStage::new(curr_time, source, None);
    let mut i: usize = 0;
    let ghost mut gs: Seq<Multigraph<NM, CM>> = seq![*graph];
    assert(path@.take(0) =~= Seq::<PathHop>::empty());
    while i < path.len()
        invariant
            graph.wf(),
            graph.nodes@.len() == old(graph).nodes@.len(),
            0 <= i <= path@.len(),
            i == 0 ==> stage.at_time == curr_time && stage.to_node == source,
            i > 0 ==> stage.to_node == path@[i - 1].rx_node,
            gs.len() == i + 1,
            gs[0] == *old(graph),
            gs[i as int] == *graph,
            forall|j: int| 0 <= j < i ==> books(gs[j], #[trigger] gs[j + 1], path@[j]),
            forall|j: int|
                0 <= j < i ==> consumes(
                    gs[j],
                    #[trigger] gs[j + 1],
                    path@[j],
                    booked_walk(gs, path@.take(j), curr_time, *bundle)->0,
                    *bundle,
                ),
            booked_walk(gs, path@.take(i as int), curr_time, *bundle) == Some(stage.at_time),
        decreases path@.len() - i,
    {
        let hop = path[i];
        let ghost before = *graph;
        match schedule_hop(graph, hop, stage.at_time, bundle) {
            None => {
                proof {
                    assert(path_trace(
                        gs,
                        *old(graph),
                        *graph,
                        path@,
                        curr_time,
                        *bundle,
                        None,
                    ));
                }
                return None;
            },
            Some(d) => {
                proof {
                    let gs2 = gs.push(*graph);
                    lemma_booked_walk_prefix(gs, gs2, path@.take(i as int), curr_time, *bundle);
                    assert(path@.take(i + 1).drop_last() =~= path@.take(i as int));
                    assert(path@.take(i + 1).last() == hop);
                    assert(gs2[i as int] == before);
                    assert forall|j: int| 0 <= j < i + 1 implies books(gs2[j], #[trigger] gs2[j + 1], path@[j]) by {
                        if j < i {
                            assert(gs2[j] == gs[j]);
                            assert(gs2[j + 1] == gs[j + 1]);
                        }
                    }
                    assert forall|j: int| 0 <= j < i + 1 implies consumes(
                        gs2[j],
                        #[trigger] gs2[j + 1],
                        path@[j],
                        booked_walk(gs2, path@.take(j), curr_time, *bundle)->0,
                        *bundle,
                    ) by {
                        lemma_booked_walk_prefix(gs, gs2, path@.take(j), curr_time, *bundle);
                        if j < i {
                            assert(gs2[j] == gs[j]);
                            assert(gs2[j + 1] == gs[j + 1]);
                        }
                    }
                    gs = gs2;
                }
                stage = next_stage(&stage, hop, &d);
            },
        }
        i = i + 1;
    }
    proof {
        assert(path@.take(path@.len() as int) =~= path@);
        assert(path_trace(gs, *old(graph), *graph, path@, curr_time, *bundle, Some(stage.at_time)));
    }
    Some(stage)
}

/// `out` sends, on the first hop of `path`, the one stage that arrives at `end`
/// where `end` is a date, and sends nothing where it is `None`.
pub open spec fn sends_on(out: RoutingOutput, path: Seq<PathHop>, end: Option<Date>) -> bool {
    match end {
        None => out.first_hops@.len() == 0,
        Some(a) => {
            &&& out.first_hops@.len() == 1
            &&& out.first_hops@[0].contact == path[0]
            &&& out.first_hops@[0].stages@.len() == 1
            &&& out.first_hops@[0].stages@[0].at_time == a
        },
    }
}

/// A decision to send on `first` the bundle that reaches `stage`.
pub fn single_output(first: PathHop, stage: RouteStage) -> (r: RoutingOutput)
    ensures
        r.first_hops@.len() == 1,
        r.first_hops@[0].contact == first,
        r.first_hops@[0].stages@ == seq![stage],
{
    let mut stages: Vec<RouteStage> = Vec::new();
    stages.push(stage);
    let mut first_hops: Vec<FirstHop> = Vec::new();
    first_hops.push(FirstHop { contact: first, stages });
    assert(first_hops@[0].stages@ =~= seq![stage]);
    RoutingOutput { first_hops }
}

/// `tree` reaches `destination` through at least one hop.
pub open spec fn unicast_routed(tree: PathFindingOutput, destination: NodeID) -> bool {
    &&& (destination as int) < tree.by_destination@.len()
    &&& tree.by_destination@[destination as int] is Some
    &&& path_of(tree.by_destination@[destination as int]->0).len() > 0
}

/// The hops by which `tree` reaches `destination`.
pub open spec fn unicast_path(tree: PathFindingOutput, destination: NodeID) -> Seq<PathHop> {
    path_of(tree.by_destination@[destination as int]->0)
}

/// `bundle`, sent along `path` in `graph` at `at_time`, arrives no later than its expiration.
pub open spec fn arrives_in_time<NM: NodeManager, CM: ContactManager>(
    graph: Multigraph<NM, CM>,
    path: Seq<PathHop>,
    at_time: Date,
    bundle: Bundle,
) -> bool {
    path_arrival(graph, path, at_time, bundle) matches Some(a) && a <= bundle.expiration
}

/// `out` and `g2` are what booking the route of `tree` towards the first
/// destination of `bundle` in `g` gives: nothing is booked or sent where the
/// tree has no hop towards it or, for a tree that is not `fresh`, where the
/// bundle would not arrive in time along it in `g`; otherwise its hops are
/// booked, and the stage at their end is sent on the first hop where every hop
/// is booked and the last one reaches the destination.
pub open spec fn unicast_booked<NM: NodeManager, CM: ContactManager>(
    g: Multigraph<NM, CM>,
    g2: Multigraph<NM, CM>,
    out: RoutingOutput,
    tree: PathFindingOutput,
    fresh: bool,
    at_time: Date,
    bundle: Bundle,
) -> bool {
    let dest = bundle.destinations@[0];
    let path = unicast_path(tree, dest);
    if unicast_routed(tree, dest) && (fresh || arrives_in_time(g, path, at_time, bundle)) {
        exists|end: Option<Date>|
            #[trigger] books_path(g, g2, path, at_time, bundle, end) && sends_on(
                out,
                path,
                if path.last().rx_node == dest {
                    end
                } else {
                    None
                },
            )
    } else {
        out.first_hops@.len() == 0 && g2 == g
    }
}

/// Books the route that `tree` holds towards the first destination of `bundle`.
/// A `fresh` tree has just been computed on the current contacts; another one
/// is first walked without booking, and nothing is booked where the route no
/// longer arrives in time.
pub fn schedule_unicast<NM: NodeManager, CM: ContactManager>(
    bundle: &Bundle,
    curr_time: Date,
    tree: &PathFindingOutput,
    fresh: bool,
    graph: &mut Multigraph<NM, CM>,
) -> (r: RoutingOutput)
    requires
        old(graph).wf(),
        bundle.destinations@.len() >= 1,
    ensures
        final(graph).wf(),
        final(graph).nodes@.len() == old(graph).nodes@.len(),
        r.first_hops@.len() <= 1,
        forall|i: int, j: int|
            0 <= i < r.first_hops@.len() && 0 <= j < r.first_hops@[i].stages@.len()
                ==> (#[trigger] r.first_hops@[i].stages@[j]).to_node == bundle.destinations@[0],
        unicast_booked(*old(graph), *final(graph), r, *tree, fresh, curr_time, *bundle),
{
    let dest = bundle.destinations[0];
    let d = dest as usize;
    if d >= tree.by_destination.len() {
        return RoutingOutput::empty();
    }
    let path = match &tree.by_destination[d] {
        None => {
            return RoutingOutput::empty();
        },
        Some(st) => st.collect_path(),
    };
    if path.len() == 0 {
        return RoutingOutput::empty();
    }
    let source = tree.source.to_node;
    if !fresh {
        match dry_run_unicast_path(bundle, curr_time, source, path.as_slice(), graph) {
            None => {
                return RoutingOutput::empty();
            },
            Some(st) => {
                if st.at_time > bundle.expiration {
                    return RoutingOutput::empty();
                }
            },
        }
    }
    match schedule_unicast_path(bundle, curr_time, source, path.as_slice(), graph) {
        None => {
            assert(books_path(*old(graph), *graph, path@, curr_time, *bundle, None));
            RoutingOutput::empty()
        },
        Some(st) => {
            assert(books_path(*old(graph), *graph, path@, curr_time, *bundle, Some(st.at_time)));
            if path[path.len() - 1].rx_node == dest {
                single_output(path[0], st)
            } else {
                RoutingOutput::empty()
            }
        },
    }
}

/// Every stage of `out` reaches one of `wanted`.
pub open spec fn reaches_only(out: RoutingOutput, wanted: Seq<NodeID>) -> bool {
    forall|i: int, j: int|
        0 <= i < out.first_hops@.len() && 0 <= j < out.first_hops@[i].stages@.len() ==> wanted.contains(
            (#[trigger] out.first_hops@[i].stages@[j]).to_node,
        )
}

/// Reaching only nodes of `a`, all of which are in `b`, is reaching only nodes of `b`.
pub proof fn lemma_reaches_only_widen(out: RoutingOutput, a: Seq<NodeID>, b: Seq<NodeID>)
    requires
        reaches_only(out, a),
        forall|k: int| 0 <= k < a.len() ==> b.contains(#[trigger] a[k]),
    ensures
        reaches_only(out, b),
{
    assert forall|i: int, j: int|
        0 <= i < out.first_hops@.len() && 0 <= j < out.first_hops@[i].stages@.len() implies b.contains(
        (#[trigger] out.first_hops@[i].stages@[j]).to_node,
    ) by {
        let x = out.first_hops@[i].stages@[j].to_node;
        assert(a.contains(x));
        let k = choose|k: int| 0 <= k < a.len() && a[k] == x;
        assert(b.contains(a[k]));
    }
}

/// `f` still sends every stage that `o` sends, on the same first hop.
pub open spec fn keeps_sent(o: RoutingOutput, f: RoutingOutput) -> bool {
    forall|i: int, j: int|
        0 <= i < o.first_hops@.len() && 0 <= j < o.first_hops@[i].stages@.len() ==> i < f.first_hops@.len()
            && f.first_hops@[i].contact == o.first_hops@[i].contact && j < f.first_hops@[i].stages@.len()
            && #[trigger] f.first_hops@[i].stages@[j] == o.first_hops@[i].stages@[j]
}

/// What an output sends stays sent in one that keeps it.
pub proof fn lemma_sends_to_kept(o: RoutingOutput, f: RoutingOutput, first: PathHop, dest: NodeID, a: Date)
    requires
        keeps_sent(o, f),
        sends_to(o, first, dest, a),
    ensures
        sends_to(f, first, dest, a),
{
    let (i, j) = choose|i: int, j: int|
        0 <= i < o.first_hops@.len() && 0 <= j < o.first_hops@[i].stages@.len()
            && o.first_hops@[i].contact == first && (#[trigger] o.first_hops@[i].stages@[j]).to_node == dest
            && o.first_hops@[i].stages@[j].at_time == a;
    assert(f.first_hops@[i].stages@[j] == o.first_hops@[i].stages@[j]);
}

/// Adds to `out` the stage `stage`, reached through the first hop `first`.
fn add_to_output(out: &mut RoutingOutput, first: PathHop, stage: RouteStage, wanted: Ghost<Seq<NodeID>>)
    requires
        reaches_only(*old(out), wanted@),
        wanted@.contains(stage.to_node),
    ensures
        reaches_only(*final(out), wanted@),
        forall|i: int, j: int|
            0 <= i < final(out).first_hops@.len() && 0 <= j < final(out).first_hops@[i].stages@.len() ==> (i
                < old(out).first_hops@.len() && j < old(out).first_hops@[i].stages@.len()
                && final(out).first_hops@[i].contact == old(out).first_hops@[i].contact && (
            #[trigger] final(out).first_hops@[i].stages@[j]) == old(out).first_hops@[i].stages@[j]) || (
            final(out).first_hops@[i].contact == first && final(out).first_hops@[i].stages@[j] == stage),
        ({
            let o = old(out).first_hops@;
            let f = final(out).first_hops@;
            (exists|k: int| 0 <= k < o.len() && (#[trigger] o[k]).contact == first) ==> exists|k: int|
                0 <= k < o.len() && (#[trigger] o[k]).contact == first && (forall|j: int|
                    0 <= j < k ==> (#[trigger] o[j]).contact != first) && f.len() == o.len()
                    && f[k].contact == first && f[k].stages@ == o[k].stages@.push(stage) && (forall|i: int|
                    0 <= i < o.len() && i != k ==> #[trigger] f[i] == o[i])
        }),
        keeps_sent(*old(out), *final(out)),
        sends_to(*final(out), first, stage.to_node, stage.at_time),
        ({
            let o = old(out).first_hops@;
            let f = final(out).first_hops@;
            (forall|k: int| 0 <= k < o.len() ==> (#[trigger] o[k]).contact != first) ==> f.len() == o.len()
                + 1 && (forall|i: int| 0 <= i < o.len() ==> #[trigger] f[i] == o[i]) && f[o.len() as int].contact
                == first && f[o.len() as int].stages@ == seq![stage]
        }),
{
    let ghost o = out.first_hops@;
    let mut k: usize = 0;
    while k < out.first_hops.len()
        invariant
            out.first_hops@ == o,
            o == old(out).first_hops@,
            reaches_only(*old(out), wanted@),
            wanted@.contains(stage.to_node),
            0 <= k <= o.len(),
            forall|j: int| 0 <= j < k ==> (#[trigger] o[j]).contact != first,
        decreases o.len() - k,
    {
        if out.first_hops[k].contact == first {
            let ghost before = out.first_hops@[k as int];
            out.first_hops[k].stages.push(stage);
            proof {
                assert(out.first_hops@[k as int].stages@ == before.stages@.push(stage));
                assert(before == o[k as int]);
                assert forall|i: int, j: int|
                    0 <= i < out.first_hops@.len() && 0 <= j < out.first_hops@[i].stages@.len() implies wanted@.contains(
                    (#[trigger] out.first_hops@[i].stages@[j]).to_node,
                ) by {
                    if i != k {
                        assert(out.first_hops@[i] == o[i]);
                        assert(wanted@.contains(old(out).first_hops@[i].stages@[j].to_node));
                    } else if j < o[i].stages@.len() {
                        assert(o[i].stages@[j] == out.first_hops@[i].stages@[j]);
                        assert(wanted@.contains(old(out).first_hops@[i].stages@[j].to_node));
                    } else {
                        assert(out.first_hops@[i].stages@[j] == stage);
                    }
                }
                assert(out.first_hops@[k as int].stages@ == o[k as int].stages@.push(stage));
                assert(out.first_hops@[k as int].stages@[o[k as int].stages@.len() as int] == stage);
                assert(forall|i: int| 0 <= i < o.len() && i != k ==> #[trigger] out.first_hops@[i] == o[i]);
                assert(o[k as int].contact == first);
            }
            return ;
        }
        k = k + 1;
    }
    let mut stages: Vec<RouteStage> = Vec::new();
    stages.push(stage);
    let ghost stages_seq = stages@;
    assert(stages_seq =~= seq![stage]);
    out.first_hops.push(FirstHop { contact: first, stages });
    proof {
        assert(out.first_hops@[o.len() as int].stages@ == stages_seq);
        assert(out.first_hops@[o.len() as int].stages@[0] == stage);
        assert(forall|i: int| 0 <= i < o.len() ==> #[trigger] out.first_hops@[i] == o[i]);
        assert forall|i: int, j: int|
            0 <= i < out.first_hops@.len() && 0 <= j < out.first_hops@[i].stages@.len() implies wanted@.contains(
            (#[trigger] out.first_hops@[i].stages@[j]).to_node,
        ) by {
            if i < o.len() {
                assert(out.first_hops@[i] == o[i]);
                assert(wanted@.contains(old(out).first_hops@[i].stages@[j].to_node));
            }
        }
    }
}

/// The nodes of `dests`, in order, that `tree` reaches no later than `expiration`.
pub open spec fn reached_in_time(tree: PathFindingOutput, dests: Seq<NodeID>, expiration: Date) -> Seq<
    NodeID,
>
    decreases dests.len(),
{
    if dests.len() == 0 {
        Seq::empty()
    } else {
        let rest = reached_in_time(tree, dests.drop_last(), expiration);
        let d = dests.last();
        if (d as int) < tree.by_destination@.len() && (tree.by_destination@[d as int] matches Some(st)
            && st.at_time <= expiration) {
            rest.push(d)
        } else {
            rest
        }
    }
}

/// The destinations that a multicast targets are exactly those of `dests`, in
/// order, that `tree` reaches no later than `expiration`: none reached after it.
pub proof fn law_reached_in_time(tree: PathFindingOutput, dests: Seq<NodeID>, expiration: Date)
    ensures
        forall|k: int|
            0 <= k < reached_in_time(tree, dests, expiration).len() ==> {
                let d = #[trigger] reached_in_time(tree, dests, expiration)[k];
                &&& dests.contains(d)
                &&& (d as int) < tree.by_destination@.len()
                &&& tree.by_destination@[d as int] matches Some(st) && st.at_time <= expiration
            },
        forall|i: int|
            0 <= i < dests.len() && (dests[i] as int) < tree.by_destination@.len() && (
            #[trigger] tree.by_destination@[dests[i] as int] matches Some(st) && st.at_time <= expiration)
                ==> reached_in_time(tree, dests, expiration).contains(dests[i]),
    decreases dests.len(),
{
    if dests.len() > 0 {
        let init = dests.drop_last();
        law_reached_in_time(tree, init, expiration);
        let r = reached_in_time(tree, dests, expiration);
        let rest = reached_in_time(tree, init, expiration);
        assert forall|k: int| 0 <= k < r.len() implies {
            let d = #[trigger] r[k];
            &&& dests.contains(d)
            &&& (d as int) < tree.by_destination@.len()
            &&& tree.by_destination@[d as int] matches Some(st) && st.at_time <= expiration
        } by {
            if k < rest.len() {
                assert(r[k] == rest[k]);
                let d = rest[k];
                let j = choose|j: int| 0 <= j < init.len() && init[j] == d;
                assert(dests[j] == d);
            } else {
                assert(dests[dests.len() - 1] == dests.last());
            }
        }
        assert forall|i: int|
            0 <= i < dests.len() && (dests[i] as int) < tree.by_destination@.len() && (
            #[trigger] tree.by_destination@[dests[i] as int] matches Some(st) && st.at_time <= expiration)
                implies r.contains(dests[i]) by {
            if i < init.len() {
                assert(init[i] == dests[i]);
                assert(rest.contains(dests[i]));
                let k = choose|k: int| 0 <= k < rest.len() && rest[k] == dests[i];
                assert(r[k] == rest[k]);
            } else {
                assert(r[r.len() - 1] == dests[i]);
            }
        }
    }
}

/// A multicast output that sends only to the destinations its tree reaches in
/// time sends every stage towards a destination of the bundle that the tree
/// reaches no later than the bundle's expiration.
pub proof fn law_multicast_sends_only_in_time(out: RoutingOutput, tree: PathFindingOutput, bundle: Bundle)
    requires
        reaches_only(out, reached_in_time(tree, bundle.destinations@, bundle.expiration)),
    ensures
        forall|i: int, j: int|
            0 <= i < out.first_hops@.len() && 0 <= j < out.first_hops@[i].stages@.len() ==> {
                let d = (#[trigger] out.first_hops@[i].stages@[j]).to_node;
                &&& bundle.destinations@.contains(d)
                &&& (d as int) < tree.by_destination@.len()
                &&& tree.by_destination@[d as int] matches Some(st) && st.at_time <= bundle.expiration
            },
{
    law_reached_in_time(tree, bundle.destinations@, bundle.expiration);
    let r = reached_in_time(tree, bundle.destinations@, bundle.expiration);
    assert forall|i: int, j: int|
        0 <= i < out.first_hops@.len() && 0 <= j < out.first_hops@[i].stages@.len() implies {
            let d = (#[trigger] out.first_hops@[i].stages@[j]).to_node;
            &&& bundle.destinations@.contains(d)
            &&& (d as int) < tree.by_destination@.len()
            &&& tree.by_destination@[d as int] matches Some(st) && st.at_time <= bundle.expiration
        } by {
        let d = out.first_hops@[i].stages@[j].to_node;
        assert(r.contains(d));
        let k = choose|k: int| 0 <= k < r.len() && r[k] == d;
        assert(r[k] == d);
    }
}

/// The destinations of `bundle` that `tree` reaches no later than the bundle's expiration.
fn reached_destinations(bundle: &Bundle, tree: &PathFindingOutput) -> (r: Vec<NodeID>)
    ensures
        forall|i: int| 0 <= i < r@.len() ==> bundle.destinations@.contains(#[trigger] r@[i]),
        r@ == reached_in_time(*tree, bundle.destinations@, bundle.expiration),
{
    let mut r: Vec<NodeID> = Vec::new();
    let mut i: usize = 0;
    assert(bundle.destinations@.take(0) =~= Seq::<NodeID>::empty());
    while i < bundle.destinations.len()
        invariant
            0 <= i <= bundle.destinations@.len(),
            forall|k: int| 0 <= k < r@.len() ==> bundle.destinations@.contains(#[trigger] r@[k]),
            r@ == reached_in_time(*tree, bundle.destinations@.take(i as int), bundle.expiration),
        decreases bundle.destinations@.len() - i,
    {
        let d = bundle.destinations[i];
        assert(bundle.destinations@.take(i + 1).drop_last() =~= bundle.destinations@.take(i as int));
        assert(bundle.destinations@.take(i + 1).last() == d);
        if (d as usize) < tree.by_destination.len() {
            if let Some(st) = &tree.by_destination[d as usize] {
                if st.at_time <= bundle.expiration {
                    r.push(d);
                    proof {
                        assert(bundle.destinations@[i as int] == d);
                    }
                }
            }
        }
        i = i + 1;
    }
    assert(bundle.destinations@.take(bundle.destinations@.len() as int) =~= bundle.destinations@);
    r
}

/// The booked hops, with the stages they lead to.
fn find_booked(booked: &Vec<(PathHop, RouteStage)>, hop: PathHop) -> (r: Option<usize>)
    ensures
        r matches Some(k) ==> k < booked@.len() && booked@[k as int].0 == hop && forall|j: int|
            0 <= j < k ==> (#[trigger] booked@[j]).0 != hop,
        r is None ==> forall|j: int| 0 <= j < booked@.len() ==> (#[trigger] booked@[j]).0 != hop,
{
    let mut k: usize = 0;
    while k < booked.len()
        invariant
            0 <= k <= booked@.len(),
            forall|j: int| 0 <= j < k ==> (#[trigger] booked@[j]).0 != hop,
        decreases booked@.len() - k,
    {
        if booked[k].0 == hop {
            return Some(k);
        }
        k = k + 1;
    }
    None
}

/// `gs` are the states of a graph while `hops` are booked one after the other.
pub open spec fn hops_chain<NM: NodeManager, CM: ContactManager>(
    gs: Seq<Multigraph<NM, CM>>,
    hops: Seq<PathHop>,
) -> bool {
    &&& gs.len() == hops.len() + 1
    &&& forall|i: int| 0 <= i < hops.len() ==> books(gs[i], #[trigger] gs[i + 1], hops[i])
}

/// No hop occurs twice in `path`.
pub open spec fn distinct_hops(path: Seq<PathHop>) -> bool {
    forall|i: int, j: int| 0 <= i < j < path.len() ==> path[i] != path[j]
}

/// `out` sends on `first` a stage that reaches `dest` at `a`.
pub open spec fn sends_to(out: RoutingOutput, first: PathHop, dest: NodeID, a: Date) -> bool {
    exists|i: int, j: int|
        0 <= i < out.first_hops@.len() && 0 <= j < out.first_hops@[i].stages@.len()
            && out.first_hops@[i].contact == first && (#[trigger] out.first_hops@[i].stages@[j]).to_node
            == dest && out.first_hops@[i].stages@[j].at_time == a
}

/// Each stage that `out` sends reaches a node that `tree` reaches by hops,
/// and is sent on the first of those hops.
pub open spec fn grouped(out: RoutingOutput, tree: PathFindingOutput) -> bool {
    forall|i: int, j: int|
        0 <= i < out.first_hops@.len() && 0 <= j < out.first_hops@[i].stages@.len() ==> {
            let d = (#[trigger] out.first_hops@[i].stages@[j]).to_node;
            &&& (d as int) < tree.by_destination@.len()
            &&& tree.by_destination@[d as int] is Some
            &&& unicast_path(tree, d).len() > 0
            &&& out.first_hops@[i].contact == unicast_path(tree, d)[0]
        }
}

/// The route of `tree` towards `dest` has hops and ends at `dest`.
pub open spec fn routed_to(tree: PathFindingOutput, dest: NodeID) -> bool {
    unicast_routed(tree, dest) && unicast_path(tree, dest).last().rx_node == dest
}

/// Where `x` is among the first `n` hops of `hops` (the last place, if several).
pub open spec fn hop_index(hops: Seq<PathHop>, n: int, x: PathHop) -> Option<int>
    decreases n,
{
    if n <= 0 {
        None
    } else if hops[n - 1] == x {
        Some(n - 1)
    } else {
        hop_index(hops, n - 1, x)
    }
}

/// The date at which the booked hop `x`, among the first `n` hops of `hops`
/// booked to arrive at `dates`, arrives.
pub open spec fn hop_date(hops: Seq<PathHop>, dates: Seq<Date>, n: int, x: PathHop) -> Date {
    dates[hop_index(hops, n, x)->0]
}

/// The date from which hop `j` of `path` is taken when the first `n` hops of
/// `hops` are booked: `at_time` for the first hop, otherwise the date at which
/// the booked hop before it arrives.
pub open spec fn date_before(
    hops: Seq<PathHop>,
    dates: Seq<Date>,
    n: int,
    path: Seq<PathHop>,
    j: int,
    at_time: Date,
) -> Date {
    if j == 0 {
        at_time
    } else {
        hop_date(hops, dates, n, path[j - 1])
    }
}

/// Hop `i` of `hops` is a hop of `path` whose hop before it on `path`, if any,
/// was booked earlier; it is booked in `gs[i]`, giving `gs[i + 1]`, from the
/// date at which that hop arrives, and arrives at `dates[i]`.
pub open spec fn booked_on_path<NM: NodeManager, CM: ContactManager>(
    gs: Seq<Multigraph<NM, CM>>,
    hops: Seq<PathHop>,
    dates: Seq<Date>,
    i: int,
    path: Seq<PathHop>,
    at_time: Date,
    bundle: Bundle,
) -> bool {
    exists|j: int|
        0 <= j < path.len() && #[trigger] path[j] == hops[i] && (j > 0 ==> hop_index(hops, i, path[j - 1]) is Some)
            && (hop_result(gs[i], hops[i], date_before(hops, dates, i, path, j, at_time), bundle) matches Some(d)
            && d.arrival == dates[i] && consumes(
            gs[i],
            gs[i + 1],
            hops[i],
            date_before(hops, dates, i, path, j, at_time),
            bundle,
        ))
}

/// The route `path` towards `dest` is served while hops `lo` to `hi` of `hops`
/// are booked: each of them is booked on `path`, continuing from the hops
/// already booked; where every hop of `path` is then booked, `out` sends
/// `dest` on the first one, at the date at which the last one arrives;
/// otherwise `path` stops at a hop that is not booked and that `gs[hi]` cannot
/// take from the date at which the hop before it arrives.
pub open spec fn path_served<NM: NodeManager, CM: ContactManager>(
    gs: Seq<Multigraph<NM, CM>>,
    hops: Seq<PathHop>,
    dates: Seq<Date>,
    lo: int,
    hi: int,
    out: RoutingOutput,
    path: Seq<PathHop>,
    dest: NodeID,
    at_time: Date,
    bundle: Bundle,
) -> bool {
    &&& forall|i: int| lo <= i < hi ==> #[trigger] booked_on_path(gs, hops, dates, i, path, at_time, bundle)
    &&& if forall|j: int| 0 <= j < path.len() ==> #[trigger] hop_index(hops, hi, path[j]) is Some {
        sends_to(out, path[0], dest, hop_date(hops, dates, hi, path.last()))
    } else {
        exists|j: int|
            0 <= j < path.len() && (forall|j2: int| 0 <= j2 < j ==> #[trigger] hop_index(hops, hi, path[j2]) is Some)
                && #[trigger] hop_index(hops, hi, path[j]) is None && hop_result(
                gs[hi],
                path[j],
                date_before(hops, dates, hi, path, j, at_time),
                bundle,
            ) is None
    }
}

/// Target `t` is served while hops `marks[t]` to `marks[t + 1]` are booked:
/// along the route of `tree` towards it where that route has hops and ends
/// there (`path_served`); with nothing booked otherwise.
pub open spec fn target_served<NM: NodeManager, CM: ContactManager>(
    gs: Seq<Multigraph<NM, CM>>,
    hops: Seq<PathHop>,
    dates: Seq<Date>,
    marks: Seq<int>,
    out: RoutingOutput,
    tree: PathFindingOutput,
    targets: Seq<NodeID>,
    t: int,
    at_time: Date,
    bundle: Bundle,
) -> bool {
    if routed_to(tree, targets[t]) {
        path_served(
            gs,
            hops,
            dates,
            marks[t],
            marks[t + 1],
            out,
            unicast_path(tree, targets[t]),
            targets[t],
            at_time,
            bundle,
        )
    } else {
        marks[t + 1] == marks[t]
    }
}

/// `gs` are the states of the graph while `hops` are booked, no hop twice, to
/// arrive at `dates`, going from `g` to `g2`; the targets are served one after
/// the other, target `t` while hops `marks[t]` to `marks[t + 1]` are booked.
pub open spec fn multicast_trace<NM: NodeManager, CM: ContactManager>(
    gs: Seq<Multigraph<NM, CM>>,
    hops: Seq<PathHop>,
    dates: Seq<Date>,
    marks: Seq<int>,
    g: Multigraph<NM, CM>,
    g2: Multigraph<NM, CM>,
    out: RoutingOutput,
    tree: PathFindingOutput,
    targets: Seq<NodeID>,
    at_time: Date,
    bundle: Bundle,
) -> bool {
    &&& hops_chain(gs, hops)
    &&& gs[0] == g
    &&& gs.last() == g2
    &&& distinct_hops(hops)
    &&& dates.len() == hops.len()
    &&& marks.len() == targets.len() + 1
    &&& marks[0] == 0
    &&& marks[targets.len() as int] == hops.len()
    &&& forall|t: int| 0 <= t < targets.len() ==> marks[t] <= #[trigger] marks[t + 1]
    &&& forall|t: int|
        0 <= t < targets.len() ==> #[trigger] target_served(gs, hops, dates, marks, out, tree, targets, t, at_time, bundle)
}

/// The targets are served one after the other as `multicast_trace` says; with
/// no target, nothing is sent and nothing booked.
pub open spec fn targets_booked<NM: NodeManager, CM: ContactManager>(
    g: Multigraph<NM, CM>,
    g2: Multigraph<NM, CM>,
    out: RoutingOutput,
    tree: PathFindingOutput,
    targets: Seq<NodeID>,
    at_time: Date,
    bundle: Bundle,
) -> bool {
    &&& exists|gs: Seq<Multigraph<NM, CM>>, hops: Seq<PathHop>, dates: Seq<Date>, marks: Seq<int>|
        #[trigger] multicast_trace(gs, hops, dates, marks, g, g2, out, tree, targets, at_time, bundle)
    &&& targets.len() == 0 ==> out.first_hops@.len() == 0 && g2 == g
}

/// Serving target `t` (`lo` being where its hops start) keeps the targets
/// before it served, and records where its hops end.
pub proof fn lemma_targets_step<NM: NodeManager, CM: ContactManager>(
    cg0: Seq<Multigraph<NM, CM>>,
    ch0: Seq<PathHop>,
    dates0: Seq<Date>,
    cg: Seq<Multigraph<NM, CM>>,
    ch: Seq<PathHop>,
    dates: Seq<Date>,
    marks: Seq<int>,
    out0: RoutingOutput,
    out: RoutingOutput,
    tree: PathFindingOutput,
    tg: Seq<NodeID>,
    t: int,
    at_time: Date,
    bundle: Bundle,
)
    requires
        0 <= t < tg.len(),
        marks.len() == t + 1,
        marks[0] == 0,
        marks[t] == ch0.len(),
        forall|a: int, b: int| 0 <= a <= b <= t ==> #[trigger] marks[a] <= #[trigger] marks[b],
        forall|t2: int| 0 <= t2 < t ==> #[trigger] target_served(cg0, ch0, dates0, marks, out0, tree, tg, t2, at_time, bundle),
        ch0.len() <= ch.len(),
        dates0.len() == ch0.len(),
        dates.len() == ch.len(),
        cg0.len() == ch0.len() + 1,
        forall|k: int| 0 <= k < ch0.len() ==> ch[k] == ch0[k] && dates[k] == dates0[k],
        forall|k: int| 0 <= k <= ch0.len() ==> cg[k] == cg0[k],
        keeps_sent(out0, out),
        routed_to(tree, tg[t]) ==> path_served(
            cg,
            ch,
            dates,
            ch0.len() as int,
            ch.len() as int,
            out,
            unicast_path(tree, tg[t]),
            tg[t],
            at_time,
            bundle,
        ),
        !routed_to(tree, tg[t]) ==> ch.len() == ch0.len(),
    ensures
        forall|a: int, b: int|
            0 <= a <= b <= t + 1 ==> #[trigger] marks.push(ch.len() as int)[a] <= #[trigger] marks.push(
                ch.len() as int,
            )[b],
        forall|t2: int|
            0 <= t2 < t + 1 ==> #[trigger] target_served(
                cg,
                ch,
                dates,
                marks.push(ch.len() as int),
                out,
                tree,
                tg,
                t2,
                at_time,
                bundle,
            ),
{
    let marks2 = marks.push(ch.len() as int);
    let lo = ch0.len() as int;
    assert forall|a: int, b: int| 0 <= a <= b <= t + 1 implies #[trigger] marks2[a] <= #[trigger] marks2[b] by {
        if b <= t {
            assert(marks2[a] == marks[a] && marks2[b] == marks[b]);
        } else {
            if a <= t {
                assert(marks2[a] == marks[a]);
                assert(marks[a] <= marks[t]);
            }
        }
    }
    assert forall|t2: int| 0 <= t2 < t + 1 implies #[trigger] target_served(
        cg,
        ch,
        dates,
        marks2,
        out,
        tree,
        tg,
        t2,
        at_time,
        bundle,
    ) by {
        if t2 < t {
            assert(marks2[t2] == marks[t2] && marks2[t2 + 1] == marks[t2 + 1]);
            assert(target_served(cg0, ch0, dates0, marks, out0, tree, tg, t2, at_time, bundle));
            assert(marks[0] <= marks[t2] && marks[t2] <= marks[t2 + 1] && marks[t2 + 1] <= marks[t]);
            if routed_to(tree, tg[t2]) {
                lemma_path_served_extend(
                    cg0,
                    ch0,
                    dates0,
                    cg,
                    ch,
                    dates,
                    marks[t2],
                    marks[t2 + 1],
                    out0,
                    out,
                    unicast_path(tree, tg[t2]),
                    tg[t2],
                    at_time,
                    bundle,
                );
            }
        } else {
            assert(marks2[t2] == lo);
        }
    }
}

/// Hop places among the first `n` hops do not depend on the hops after them.
pub proof fn lemma_hop_index_prefix(a: Seq<PathHop>, b: Seq<PathHop>, n: int, x: PathHop)
    requires
        n <= a.len(),
        n <= b.len(),
        forall|i: int| 0 <= i < n ==> a[i] == b[i],
    ensures
        hop_index(a, n, x) == hop_index(b, n, x),
    decreases n,
{
    if n > 0 {
        lemma_hop_index_prefix(a, b, n - 1, x);
    }
}

/// A hop place is a place of the hop, and there is none only where the hop is absent.
pub proof fn lemma_hop_index_props(a: Seq<PathHop>, n: int, x: PathHop)
    requires
        n <= a.len(),
    ensures
        hop_index(a, n, x) matches Some(i) ==> 0 <= i < n && a[i] == x,
        hop_index(a, n, x) is None <==> forall|i: int| 0 <= i < n ==> a[i] != x,
    decreases n,
{
    if n > 0 {
        lemma_hop_index_props(a, n - 1, x);
    }
}

/// Among distinct hops, a hop is found at its own place.
pub proof fn lemma_hop_index_at(a: Seq<PathHop>, n: int, k: int)
    requires
        0 <= k < n <= a.len(),
        distinct_hops(a),
    ensures
        hop_index(a, n, a[k]) == Some(k),
    decreases n,
{
    if k < n - 1 {
        assert(a[n - 1] != a[k]);
        lemma_hop_index_at(a, n - 1, k);
    }
}

/// A hop booked on a path stays so when more hops are booked after it.
pub proof fn lemma_booked_on_path_extend<NM: NodeManager, CM: ContactManager>(
    gs: Seq<Multigraph<NM, CM>>,
    hops: Seq<PathHop>,
    dates: Seq<Date>,
    gs2: Seq<Multigraph<NM, CM>>,
    hops2: Seq<PathHop>,
    dates2: Seq<Date>,
    i: int,
    path: Seq<PathHop>,
    at_time: Date,
    bundle: Bundle,
)
    requires
        booked_on_path(gs, hops, dates, i, path, at_time, bundle),
        0 <= i < hops.len() <= hops2.len(),
        hops.len() <= dates.len(),
        hops.len() <= dates2.len(),
        forall|k: int| 0 <= k <= i ==> hops2[k] == hops[k] && dates2[k] == dates[k] && gs2[k] == gs[k],
        gs2[i + 1] == gs[i + 1],
    ensures
        booked_on_path(gs2, hops2, dates2, i, path, at_time, bundle),
{
    let j = choose|j: int|
        0 <= j < path.len() && #[trigger] path[j] == hops[i] && (j > 0 ==> hop_index(hops, i, path[j - 1]) is Some)
            && (hop_result(gs[i], hops[i], date_before(hops, dates, i, path, j, at_time), bundle) matches Some(d)
            && d.arrival == dates[i] && consumes(
            gs[i],
            gs[i + 1],
            hops[i],
            date_before(hops, dates, i, path, j, at_time),
            bundle,
        ));
    if j > 0 {
        lemma_hop_index_prefix(hops, hops2, i, path[j - 1]);
        lemma_hop_index_props(hops, i, path[j - 1]);
    }
    assert(date_before(hops2, dates2, i, path, j, at_time) == date_before(hops, dates, i, path, j, at_time));
    assert(path[j] == hops2[i]);
}

/// A served path stays served when more hops are booked after its own and
/// the output keeps what it sent.
pub proof fn lemma_path_served_extend<NM: NodeManager, CM: ContactManager>(
    gs: Seq<Multigraph<NM, CM>>,
    hops: Seq<PathHop>,
    dates: Seq<Date>,
    gs2: Seq<Multigraph<NM, CM>>,
    hops2: Seq<PathHop>,
    dates2: Seq<Date>,
    lo: int,
    hi: int,
    out: RoutingOutput,
    out2: RoutingOutput,
    path: Seq<PathHop>,
    dest: NodeID,
    at_time: Date,
    bundle: Bundle,
)
    requires
        path_served(gs, hops, dates, lo, hi, out, path, dest, at_time, bundle),
        0 <= lo <= hi <= hops.len() <= hops2.len(),
        hops.len() <= dates.len(),
        hops.len() <= dates2.len(),
        forall|k: int| 0 <= k < hops.len() ==> hops2[k] == hops[k] && dates2[k] == dates[k],
        forall|k: int| 0 <= k <= hops.len() ==> gs2[k] == gs[k],
        keeps_sent(out, out2),
        path.len() > 0,
    ensures
        path_served(gs2, hops2, dates2, lo, hi, out2, path, dest, at_time, bundle),
{
    assert forall|i: int| lo <= i < hi implies #[trigger] booked_on_path(gs2, hops2, dates2, i, path, at_time, bundle) by {
        assert(booked_on_path(gs, hops, dates, i, path, at_time, bundle));
        lemma_booked_on_path_extend(gs, hops, dates, gs2, hops2, dates2, i, path, at_time, bundle);
    }
    assert forall|j: int| 0 <= j < path.len() implies #[trigger] hop_index(hops2, hi, path[j]) == hop_index(
        hops,
        hi,
        path[j],
    ) by {
        lemma_hop_index_prefix(hops, hops2, hi, path[j]);
    }
    if forall|j: int| 0 <= j < path.len() ==> #[trigger] hop_index(hops, hi, path[j]) is Some {
        lemma_hop_index_props(hops, hi, path.last());
        assert(hop_index(hops2, hi, path[path.len() - 1]) == hop_index(hops, hi, path[path.len() - 1]));
        lemma_sends_to_kept(out, out2, path[0], dest, hop_date(hops, dates, hi, path.last()));
    } else {
        let j = choose|j: int|
            0 <= j < path.len() && (forall|j2: int| 0 <= j2 < j ==> #[trigger] hop_index(hops, hi, path[j2]) is Some)
                && #[trigger] hop_index(hops, hi, path[j]) is None && hop_result(
                gs[hi],
                path[j],
                date_before(hops, dates, hi, path, j, at_time),
                bundle,
            ) is None;
        if j > 0 {
            assert(hop_index(hops2, hi, path[j - 1]) == hop_index(hops, hi, path[j - 1]));
            lemma_hop_index_props(hops, hi, path[j - 1]);
        }
        assert(date_before(hops2, dates2, hi, path, j, at_time) == date_before(hops, dates, hi, path, j, at_time));
        assert(hop_index(hops2, hi, path[j]) is None);
    }
}

/// `g2` is `g` after booking hops one after the other, no hop twice.
pub open spec fn booked_once<NM: NodeManager, CM: ContactManager>(g: Multigraph<NM, CM>, g2: Multigraph<NM, CM>) -> bool {
    exists|gs: Seq<Multigraph<NM, CM>>, hops: Seq<PathHop>|
        #[trigger] hops_chain(gs, hops) && gs[0] == g && gs.last() == g2 && distinct_hops(hops)
}

/// The destinations that a multicast books routes towards.
pub open spec fn multicast_targets(
    bundle: Bundle,
    tree: PathFindingOutput,
    reachable: Option<Vec<NodeID>>,
) -> Seq<NodeID> {
    match reachable {
        Some(v) => v@,
        None => reached_in_time(tree, bundle.destinations@, bundle.expiration),
    }
}

/// Books the routes that `tree` holds towards the `reachable` destinations (all
/// those it reaches in time when `None`), one destination after the other,
/// booking a hop shared by several routes once (a later route continues from
/// the date at which the booked hop arrives), and groups the destinations
/// whose routes are booked through by first hop.
#[verifier::rlimit(60)]
pub fn schedule_multicast<NM: NodeManager, CM: ContactManager>(
    bundle: &Bundle,
    curr_time: Date,
    tree: &PathFindingOutput,
    reachable: Option<Vec<NodeID>>,
    graph: &mut Multigraph<NM, CM>,
) -> (r: RoutingOutput)
    requires
        old(graph).wf(),
    ensures
        final(graph).wf(),
        final(graph).nodes@.len() == old(graph).nodes@.len(),
        reaches_only(
            r,
            match reachable {
                Some(v) => v@,
                None => bundle.destinations@,
            },
        ),
        targets_booked(
            *old(graph),
            *final(graph),
            r,
            *tree,
            multicast_targets(*bundle, *tree, reachable),
            curr_time,
            *bundle,
        ),
        booked_once(*old(graph), *final(graph)),
        grouped(r, *tree),
        reaches_only(r, multicast_targets(*bundle, *tree, reachable)),
        multicast_targets(*bundle, *tree, reachable).len() == 0 ==> r.first_hops@.len() == 0 && *final(graph)
            == *old(graph),
{
    let ghost wanted: Seq<NodeID> = match &reachable {
        Some(v) => v@,
        None => bundle.destinations@,
    };
    let ghost tg = multicast_targets(*bundle, *tree, reachable);
    let targets: Vec<NodeID> = match reachable {
        Some(v) => v,
        None => reached_destinations(bundle, tree),
    };
    let source = tree.source.to_node;
    let mut out = RoutingOutput::empty();
    let mut booked: Vec<(PathHop, RouteStage)> = Vec::new();
    let ghost mut cg: Seq<Multigraph<NM, CM>> = seq![*graph];
    let ghost mut ch: Seq<PathHop> = Seq::empty();
    let ghost mut dates: Seq<Date> = Seq::empty();
    let ghost mut marks: Seq<int> = seq![0int];
    let mut t: usize = 0;
    while t < targets.len()
        invariant
            graph.wf(),
            graph.nodes@.len() == old(graph).nodes@.len(),
            0 <= t <= targets@.len(),
            targets@ == tg,
            forall|k: int| 0 <= k < targets@.len() ==> wanted.contains(#[trigger] targets@[k]),
            reaches_only(out, tg),
            grouped(out, *tree),
            t == 0 ==> out.first_hops@.len() == 0 && *graph == *old(graph),
            hops_chain(cg, ch),
            cg[0] == *old(graph),
            cg.last() == *graph,
            distinct_hops(ch),
            dates.len() == ch.len(),
            booked@.len() == ch.len(),
            forall|i: int|
                0 <= i < ch.len() ==> ch[i] == (#[trigger] booked@[i]).0 && booked@[i].1.at_time == dates[i]
                    && booked@[i].1.to_node == ch[i].rx_node,
            marks.len() == t + 1,
            marks[0] == 0,
            marks[t as int] == ch.len(),
            forall|a: int, b: int| 0 <= a <= b <= t ==> #[trigger] marks[a] <= #[trigger] marks[b],
            forall|t2: int|
                0 <= t2 < t ==> #[trigger] target_served(cg, ch, dates, marks, out, *tree, tg, t2, curr_time, *bundle),
        decreases targets@.len() - t,
    {
        let dest = targets[t];
        let d = dest as usize;
        let ghost lo: int = ch.len() as int;
        let ghost cg0 = cg;
        let ghost ch0 = ch;
        let ghost dates0 = dates;
        let ghost out0 = out;
        if d < tree.by_destination.len() {
            if let Some(st) = &tree.by_destination[d] {
                let path = st.collect_path();
                if path.len() > 0 && path[path.len() - 1].rx_node == dest {
                    proof {
                        assert(path@ == unicast_path(*tree, tg[t as int]));
                        assert(routed_to(*tree, tg[t as int]));
                    }
                    let mut cur = RouteStage::new(curr_time, source, None);
                    let mut ok = true;
                    let mut h: usize = 0;
                    while ok && h < path.len()
                        invariant
                            graph.wf(),
                            graph.nodes@.len() == old(graph).nodes@.len(),
                            0 <= h <= path@.len(),
                            path@ == unicast_path(*tree, tg[t as int]),
                            path@.len() > 0,
                            hops_chain(cg, ch),
                            cg[0] == *old(graph),
                            cg.last() == *graph,
                            distinct_hops(ch),
                            dates.len() == ch.len(),
                            booked@.len() == ch.len(),
                            forall|i: int|
                                0 <= i < ch.len() ==> ch[i] == (#[trigger] booked@[i]).0 && booked@[i].1.at_time
                                    == dates[i] && booked@[i].1.to_node == ch[i].rx_node,
                            lo <= ch.len(),
                            ch0.len() == lo,
                            cg0.len() == lo + 1,
                            dates0.len() == lo,
                            forall|k: int| 0 <= k < lo ==> ch[k] == ch0[k] && dates[k] == dates0[k],
                            forall|k: int| 0 <= k <= lo ==> cg[k] == cg0[k],
                            forall|i: int| lo <= i < ch.len() ==> #[trigger] booked_on_path(
                                cg,
                                ch,
                                dates,
                                i,
                                path@,
                                curr_time,
                                *bundle,
                            ),
                            ok ==> forall|j: int| 0 <= j < h ==> #[trigger] hop_index(ch, ch.len() as int, path@[j]) is Some,
                            ok ==> cur.at_time == date_before(ch, dates, ch.len() as int, path@, h as int, curr_time),
                            ok && h > 0 ==> cur.to_node == path@[h - 1].rx_node,
                            !ok ==> h < path@.len() && (forall|j: int|
                                0 <= j < h ==> #[trigger] hop_index(ch, ch.len() as int, path@[j]) is Some)
                                && hop_index(ch, ch.len() as int, path@[h as int]) is None && hop_result(
                                *graph,
                                path@[h as int],
                                date_before(ch, dates, ch.len() as int, path@, h as int, curr_time),
                                *bundle,
                            ) is None,
                        decreases path@.len() - h + (if ok { 1int } else { 0int }),
                    {
                        let hop = path[h];
                        match find_booked(&booked, hop) {
                            Some(k) => {
                                proof {
                                    lemma_hop_index_at(ch, ch.len() as int, k as int);
                                }
                                cur = booked[k].1.duplicate();
                                if cur.to_node != hop.rx_node {
                                    ok = false;
                                }
                            },
                            None => {
                                proof {
                                    lemma_hop_index_props(ch, ch.len() as int, hop);
                                    assert forall|i: int| 0 <= i < ch.len() implies ch[i] != hop by {
                                        assert(booked@[i].0 == ch[i]);
                                    }
                                }
                                let ghost before = *graph;
                                match schedule_hop(graph, hop, cur.at_time, bundle) {
                                    Some(dd) => {
                                        let ghost n = ch.len() as int;
                                        proof {
                                            let cg2 = cg.push(*graph);
                                            let ch2 = ch.push(hop);
                                            let dates2 = dates.push(dd.arrival);
                                            assert forall|i: int| 0 <= i < ch2.len() implies books(
                                                cg2[i],
                                                #[trigger] cg2[i + 1],
                                                ch2[i],
                                            ) by {
                                                if i < ch.len() {
                                                    assert(cg2[i] == cg[i]);
                                                    assert(cg2[i + 1] == cg[i + 1]);
                                                }
                                            }
                                            assert forall|i: int, j: int|
                                                0 <= i < j < ch2.len() implies ch2[i] != ch2[j] by {
                                                if j == ch.len() {
                                                    assert(ch[i] != hop);
                                                }
                                            }
                                            assert(hop_index(ch2, n + 1, hop) == Some(n));
                                            assert forall|y: PathHop| y != hop implies #[trigger] hop_index(
                                                ch2,
                                                n + 1,
                                                y,
                                            ) == hop_index(ch, n, y) by {
                                                lemma_hop_index_prefix(ch, ch2, n, y);
                                            }
                                            if h > 0 {
                                                assert(hop_index(ch, n, path@[h - 1]) is Some);
                                                lemma_hop_index_prefix(ch, ch2, n, path@[h - 1]);
                                                lemma_hop_index_props(ch, n, path@[h - 1]);
                                            }
                                            assert(date_before(ch2, dates2, n, path@, h as int, curr_time) == cur.at_time);
                                            assert(booked_on_path(cg2, ch2, dates2, n, path@, curr_time, *bundle)) by {
                                                assert(path@[h as int] == ch2[n]);
                                                assert(cg2[n] == before);
                                            }
                                            assert forall|i: int| lo <= i < ch2.len() implies #[trigger] booked_on_path(
                                                cg2,
                                                ch2,
                                                dates2,
                                                i,
                                                path@,
                                                curr_time,
                                                *bundle,
                                            ) by {
                                                if i < n {
                                                    assert(booked_on_path(cg, ch, dates, i, path@, curr_time, *bundle));
                                                    lemma_booked_on_path_extend(
                                                        cg,
                                                        ch,
                                                        dates,
                                                        cg2,
                                                        ch2,
                                                        dates2,
                                                        i,
                                                        path@,
                                                        curr_time,
                                                        *bundle,
                                                    );
                                                }
                                            }
                                            assert forall|j: int| 0 <= j < h + 1 implies #[trigger] hop_index(
                                                ch2,
                                                n + 1,
                                                path@[j],
                                            ) is Some by {
                                                if j < h && path@[j] != hop {
                                                    assert(hop_index(ch, n, path@[j]) is Some);
                                                }
                                            }
                                            assert(date_before(ch2, dates2, n + 1, path@, h + 1, curr_time) == dd.arrival);
                                            cg = cg2;
                                            ch = ch2;
                                            dates = dates2;
                                        }
                                        cur = next_stage(&cur, hop, &dd);
                                        let ghost bk = booked@;
                                        booked.push((hop, cur.duplicate()));
                                        proof {
                                            assert forall|i: int| 0 <= i < ch.len() implies ch[i] == (
                                            #[trigger] booked@[i]).0 && booked@[i].1.at_time == dates[i]
                                                && booked@[i].1.to_node == ch[i].rx_node by {
                                                if i < bk.len() {
                                                    assert(booked@[i] == bk[i]);
                                                }
                                            }
                                        }
                                    },
                                    None => {
                                        ok = false;
                                    },
                                }
                            },
                        }
                        if ok {
                            h = h + 1;
                        }
                    }
                    if ok {
                        proof {
                            assert(path@[path@.len() - 1] == path@.last());
                        }
                        assert(cur.to_node == dest);
                        assert(tg.contains(targets@[t as int]));
                        let ghost o1 = out;
                        add_to_output(&mut out, path[0], cur, Ghost(tg));
                        proof {
                            assert forall|i: int, j: int|
                                0 <= i < out.first_hops@.len() && 0 <= j < out.first_hops@[i].stages@.len() implies {
                                let d2 = (#[trigger] out.first_hops@[i].stages@[j]).to_node;
                                &&& (d2 as int) < tree.by_destination@.len()
                                &&& tree.by_destination@[d2 as int] is Some
                                &&& unicast_path(*tree, d2).len() > 0
                                &&& out.first_hops@[i].contact == unicast_path(*tree, d2)[0]
                            } by {
                                if !(out.first_hops@[i].contact == path@[0] && out.first_hops@[i].stages@[j] == cur) {
                                    assert(o1.first_hops@[i].stages@[j] == out.first_hops@[i].stages@[j]);
                                }
                            }
                            assert(sends_to(out, path@[0], tg[t as int], cur.at_time));
                        }
                    }
                    proof {
                        let n = ch.len() as int;
                        if ok {
                            assert(forall|j: int| 0 <= j < path@.len() ==> #[trigger] hop_index(ch, n, path@[j]) is Some);
                            assert(cur.at_time == hop_date(ch, dates, n, path@.last()));
                        } else {
                            assert(hop_index(ch, n, path@[h as int]) is None);
                        }
                        assert(path_served(cg, ch, dates, lo, n, out, path@, tg[t as int], curr_time, *bundle));
                    }
                }
            }
        }
        proof {
            let marks2 = marks.push(ch.len() as int);
            lemma_targets_step(
                cg0,
                ch0,
                dates0,
                cg,
                ch,
                dates,
                marks,
                out0,
                out,
                *tree,
                tg,
                t as int,
                curr_time,
                *bundle,
            );
            marks = marks2;
        }
        t = t + 1;
    }
    proof {
        lemma_reaches_only_widen(out, tg, wanted);
        assert forall|t2: int| 0 <= t2 < tg.len() implies marks[t2] <= #[trigger] marks[t2 + 1] by {
            assert(marks[t2] <= marks[t2 + 1]);
        }
        assert(multicast_trace(cg, ch, dates, marks, *old(graph), *graph, out, *tree, tg, curr_time, *bundle));
        assert(hops_chain(cg, ch) && cg[0] == *old(graph) && cg.last() == *graph && distinct_hops(ch));
    }
    out
}

/// What routing the unicast `bundle` along `tree` gives, `g` being the graph
/// before and `g2` after: where the tree reaches the destination and the bundle,
/// sent along its path in `g` at `at_time`, arrives no later than its expiration,
/// the booking of that path; nothing otherwise, with nothing booked.
pub open spec fn unicast_outcome<NM: NodeManager, CM: ContactManager>(
    g: Multigraph<NM, CM>,
    g2: Multigraph<NM, CM>,
    r: Option<RoutingOutput>,
    tree: PathFindingOutput,
    at_time: Date,
    bundle: Bundle,
) -> bool {
    let dest = bundle.destinations@[0];
    let path = unicast_path(tree, dest);
    &&& (r is Some <==> ((dest as int) < tree.by_destination@.len() && tree.by_destination@[dest as int] is Some
        && arrives_in_time(g, path, at_time, bundle)))
    &&& r matches Some(out) ==> path_output_booked(g, g2, out, path, at_time, bundle)
    &&& r is None ==> g2 == g
}

/// `out` and `g2` are what booking `path` in `g` from `at_time` gives: nothing
/// for an empty path; otherwise its hops are booked, and the stage at their end
/// is sent on the first hop where every hop is booked.
pub open spec fn path_output_booked<NM: NodeManager, CM: ContactManager>(
    g: Multigraph<NM, CM>,
    g2: Multigraph<NM, CM>,
    out: RoutingOutput,
    path: Seq<PathHop>,
    at_time: Date,
    bundle: Bundle,
) -> bool {
    if path.len() == 0 {
        out.first_hops@.len() == 0 && g2 == g
    } else {
        exists|end: Option<Date>| #[trigger] books_path(g, g2, path, at_time, bundle, end) && sends_on(out, path, end)
    }
}

/// Routes the unicast `bundle` from `source` at `curr_time` along the route
/// that `tree` holds towards its destination: books it where the bundle gets
/// through in time, and books nothing otherwise.
pub fn unicast_from_tree<NM: NodeManager, CM: ContactManager>(
    bundle: &Bundle,
    curr_time: Date,
    source: NodeID,
    tree: &PathFindingOutput,
    graph: &mut Multigraph<NM, CM>,
) -> (r: Option<RoutingOutput>)
    requires
        old(graph).wf(),
        bundle.destinations@.len() >= 1,
    ensures
        final(graph).wf(),
        final(graph).nodes@.len() == old(graph).nodes@.len(),
        unicast_outcome(*old(graph), *final(graph), r, *tree, curr_time, *bundle),
        r matches Some(out) ==> out.first_hops@.len() <= 1 && (unicast_path(*tree, bundle.destinations@[0]).len()
            > 0 ==> reaches_only(out, seq![unicast_path(*tree, bundle.destinations@[0]).last().rx_node])),
{
    let d = bundle.destinations[0] as usize;
    if d >= tree.by_destination.len() {
        return None;
    }
    let path = match &tree.by_destination[d] {
        None => {
            return None;
        },
        Some(st) => st.collect_path(),
    };
    match dry_run_unicast_path(bundle, curr_time, source, path.as_slice(), graph) {
        Some(st) => {
            if st.at_time <= bundle.expiration {
                Some(schedule_path_output(bundle, curr_time, path.as_slice(), graph))
            } else {
                None
            }
        },
        None => None,
    }
}

/// Books `path` from its first node at `curr_time`; the decision to send on its
/// first hop where every hop could be booked, and to send nothing otherwise.
pub fn schedule_path_output<NM: NodeManager, CM: ContactManager>(
    bundle: &Bundle,
    curr_time: Date,
    path: &[PathHop],
    graph: &mut Multigraph<NM, CM>,
) -> (r: RoutingOutput)
    requires
        old(graph).wf(),
    ensures
        final(graph).wf(),
        final(graph).nodes@.len() == old(graph).nodes@.len(),
        r.first_hops@.len() <= 1,
        path@.len() > 0 ==> reaches_only(r, seq![path@.last().rx_node]),
        path_output_booked(*old(graph), *final(graph), r, path@, curr_time, *bundle),
{
    if path.len() == 0 {
        return RoutingOutput::empty();
    }
    match schedule_unicast_path(bundle, curr_time, path[0].tx_node, path, graph) {
        None => {
            let r = RoutingOutput::empty();
            assert(books_path(*old(graph), *graph, path@, curr_time, *bundle, None));
            r
        },
        Some(st) => {
            let r = single_output(path[0], st);
            assert(seq![path@.last().rx_node].contains(st.to_node)) by {
                assert(seq![path@.last().rx_node][0] == st.to_node);
            }
            assert(books_path(*old(graph), *graph, path@, curr_time, *bundle, Some(st.at_time)));
            r
        },
    }
}

} // verus!
