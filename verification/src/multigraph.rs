use vstd::prelude::*;
use crate::contact::Contact;
use crate::contact_manager::ContactManager;
use crate::contact_plan::ContactPlan;
use crate::node::Node;
use crate::node_manager::NodeManager;
use crate::types::NodeID;

verus! {

/// The contacts from one node to one other node, by opening date.
#[derive(Debug)]
pub struct Receiver<CM: ContactManager> {
    /// The receiving node.
    pub rx: NodeID,
    /// The contacts, ordered by opening date.
    pub contacts: Vec<Contact<CM>>,
}

/// The contacts of a contact plan, grouped by sending node and then by receiving node.
#[derive(Debug)]
pub struct Multigraph<NM: NodeManager, CM: ContactManager> {
    /// The nodes, each at the index of its identifier.
    pub nodes: Vec<Node<NM>>,
    /// For each sending node, the receivers it has contacts with, each once.
    pub senders: Vec<Vec<Receiver<CM>>>,
}

/// The contacts are ordered by opening date.
pub open spec fn by_start<CM: ContactManager>(cs: Seq<Contact<CM>>) -> bool {
    forall|i: int, j: int| 0 <= i < j < cs.len() ==> #[trigger] cs[i].info.start <= #[trigger] cs[j].info.start
}

impl<NM: NodeManager, CM: ContactManager> Multigraph<NM, CM> {
    /// The grouping is consistent with the nodes and the contacts it holds.
    pub open spec fn wf(&self) -> bool {
        &&& self.nodes@.len() <= 0x1_0000
        &&& self.senders@.len() == self.nodes@.len()
        &&& forall|i: int| 0 <= i < self.nodes@.len() ==> (#[trigger] self.nodes@[i]).info.id == i
        &&& forall|t: int, s: int|
            0 <= t < self.senders@.len() && 0 <= s < self.senders@[t]@.len() ==> self.receiver_wf(
                t,
                s,
            )
        &&& forall|t: int, s1: int, s2: int|
            0 <= t < self.senders@.len() && 0 <= s1 < s2 < self.senders@[t]@.len()
                ==> #[trigger] self.senders@[t]@[s1].rx != #[trigger] self.senders@[t]@[s2].rx
    }

    /// The receiver at slot `s` of node `t` is a node of the graph, and its
    /// contacts go from `t` to it, by opening date, with well-formed managers.
    pub open spec fn receiver_wf(&self, t: int, s: int) -> bool {
        let r = self.senders@[t]@[s];
        &&& r.rx < self.nodes@.len()
        &&& by_start(r.contacts@)
        &&& forall|k: int|
            0 <= k < r.contacts@.len() ==> (#[trigger] r.contacts@[k]).info.tx_node == t
                && r.contacts@[k].info.rx_node == r.rx && r.contacts@[k].manager.wf()
    }

    /// The slot of the receiver `rx` among those of `tx`, if `tx` has contacts to `rx`.
    pub open spec fn slot_of(&self, tx: int, rx: NodeID) -> Option<int> {
        if exists|s: int| 0 <= s < self.senders@[tx]@.len() && (#[trigger] self.senders@[tx]@[s]).rx == rx {
            Some(choose|s: int| 0 <= s < self.senders@[tx]@.len() && (#[trigger] self.senders@[tx]@[s]).rx == rx)
        } else {
            None
        }
    }

    /// `next` is this graph with `contact` placed among the contacts from its
    /// sending node to its receiving node, after those that do not open later
    /// (in a new receiver, after the others, where there were none).
    pub open spec fn adds(&self, next: Self, contact: Contact<CM>) -> bool {
        let t = contact.info.tx_node as int;
        let o = self.senders@[t]@;
        let f = next.senders@[t]@;
        &&& next.senders@.len() == self.senders@.len()
        &&& forall|t2: int|
            0 <= t2 < self.senders@.len() && t2 != t ==> #[trigger] next.senders@[t2] == self.senders@[t2]
        &&& match self.slot_of(t, contact.info.rx_node) {
            None => f.len() == o.len() + 1 && f.take(o.len() as int) == o && f[o.len() as int].rx
                == contact.info.rx_node && f[o.len() as int].contacts@ == seq![contact],
            Some(s) => f.len() == o.len() && (forall|s2: int|
                0 <= s2 < o.len() && s2 != s ==> #[trigger] f[s2] == o[s2]) && f[s].rx == o[s].rx
                && exists|p: int|
                0 <= p <= o[s].contacts@.len() && f[s].contacts@ == o[s].contacts@.insert(p, contact)
                    && (forall|j: int|
                    0 <= j < p ==> (#[trigger] o[s].contacts@[j]).info.start <= contact.info.start) && (p
                    < o[s].contacts@.len() ==> o[s].contacts@[p].info.start > contact.info.start),
        }
    }

    /// `contact` is among those from its sending node to its receiving node.
    pub open spec fn holds_contact(&self, contact: Contact<CM>) -> bool {
        &&& (contact.info.tx_node as int) < self.senders@.len()
        &&& self.slot_of(contact.info.tx_node as int, contact.info.rx_node) matches Some(s)
            && self.senders@[contact.info.tx_node as int]@[s].contacts@.contains(contact)
    }

    /// The graph holds the contacts of `contacts`, each in its place, and no other.
    pub open spec fn holds_exactly(&self, contacts: Seq<Contact<CM>>) -> bool {
        &&& forall|k: int| 0 <= k < contacts.len() ==> self.holds_contact(#[trigger] contacts[k])
        &&& forall|t: int, s: int, c: int|
            0 <= t < self.senders@.len() && 0 <= s < self.senders@[t]@.len() && 0 <= c
                < self.senders@[t]@[s].contacts@.len() ==> contacts.contains(
                #[trigger] self.senders@[t]@[s].contacts@[c],
            )
    }

    /// In a well-formed graph, a receiver is found at its own slot.
    pub proof fn lemma_slot_of_at(&self, t: int, s: int)
        requires
            self.wf(),
            0 <= t < self.senders@.len(),
            0 <= s < self.senders@[t]@.len(),
        ensures
            self.slot_of(t, self.senders@[t]@[s].rx) == Some(s),
    {
        let rx = self.senders@[t]@[s].rx;
        let c = choose|c: int| 0 <= c < self.senders@[t]@.len() && (#[trigger] self.senders@[t]@[c]).rx == rx;
        if c != s {
            if c < s {
                assert(self.senders@[t]@[c].rx != self.senders@[t]@[s].rx);
            } else {
                assert(self.senders@[t]@[s].rx != self.senders@[t]@[c].rx);
            }
        }
    }

    /// Adding a contact to a graph that holds exactly `rest` gives one that
    /// holds exactly the contact followed by `rest`.
    pub proof fn lemma_adds_holds(&self, next: Self, contact: Contact<CM>, rest: Seq<Contact<CM>>)
        requires
            self.wf(),
            next.wf(),
            (contact.info.tx_node as int) < self.senders@.len(),
            self.adds(next, contact),
            self.holds_exactly(rest),
        ensures
            next.holds_exactly(seq![contact] + rest),
    {
        let all = seq![contact] + rest;
        let t = contact.info.tx_node as int;
        let o = self.senders@[t]@;
        let f = next.senders@[t]@;
        assert(all[0] == contact);
        assert forall|x: Contact<CM>| rest.contains(x) implies all.contains(x) by {
            let k = choose|k: int| 0 <= k < rest.len() && rest[k] == x;
            assert(all[k + 1] == x);
        }
        // where each contact of `self` is now
        assert forall|t2: int, s2: int|
            0 <= t2 < self.senders@.len() && 0 <= s2 < self.senders@[t2]@.len() implies (#[trigger] next.senders@[t2]@[s2]).rx
                == self.senders@[t2]@[s2].rx && (forall|y: Contact<CM>|
                self.senders@[t2]@[s2].contacts@.contains(y) ==> next.senders@[t2]@[s2].contacts@.contains(y)) by {
            if t2 == t {
                match self.slot_of(t, contact.info.rx_node) {
                    None => {
                        assert(f[s2] == f.take(o.len() as int)[s2]);
                    },
                    Some(s) => {
                        if s2 == s {
                            let p = choose|p: int|
                                0 <= p <= o[s].contacts@.len() && f[s].contacts@ == o[s].contacts@.insert(p, contact)
                                    && (forall|j: int|
                                    0 <= j < p ==> (#[trigger] o[s].contacts@[j]).info.start <= contact.info.start)
                                    && (p < o[s].contacts@.len() ==> o[s].contacts@[p].info.start
                                    > contact.info.start);
                            assert forall|y: Contact<CM>| o[s].contacts@.contains(y) implies f[s].contacts@.contains(y) by {
                                let i = choose|i: int| 0 <= i < o[s].contacts@.len() && o[s].contacts@[i] == y;
                                if i < p {
                                    assert(f[s].contacts@[i] == y);
                                } else {
                                    assert(f[s].contacts@[i + 1] == y);
                                }
                            }
                        }
                    },
                }
            }
        }
        assert forall|k: int| 0 <= k < all.len() implies next.holds_contact(#[trigger] all[k]) by {
            let x = all[k];
            if k == 0 {
                match self.slot_of(t, contact.info.rx_node) {
                    None => {
                        next.lemma_slot_of_at(t, o.len() as int);
                        assert(f[o.len() as int].contacts@[0] == contact);
                    },
                    Some(s) => {
                        assert(o[s].rx == contact.info.rx_node);
                        next.lemma_slot_of_at(t, s);
                        let p = choose|p: int|
                            0 <= p <= o[s].contacts@.len() && f[s].contacts@ == o[s].contacts@.insert(p, contact)
                                && (forall|j: int|
                                0 <= j < p ==> (#[trigger] o[s].contacts@[j]).info.start <= contact.info.start)
                                && (p < o[s].contacts@.len() ==> o[s].contacts@[p].info.start > contact.info.start);
                        assert(f[s].contacts@[p] == contact);
                    },
                }
            } else {
                assert(x == rest[k - 1]);
                assert(self.holds_contact(rest[k - 1]));
                let tx = x.info.tx_node as int;
                let s2 = self.slot_of(tx, x.info.rx_node)->0;
                assert(self.senders@[tx]@[s2].rx == x.info.rx_node);
                next.lemma_slot_of_at(tx, s2);
                assert(next.senders@[tx]@[s2].rx == x.info.rx_node);
            }
        }
        assert forall|t2: int, s2: int, c2: int|
            0 <= t2 < next.senders@.len() && 0 <= s2 < next.senders@[t2]@.len() && 0 <= c2
                < next.senders@[t2]@[s2].contacts@.len() implies all.contains(
                #[trigger] next.senders@[t2]@[s2].contacts@[c2],
            ) by {
            let y = next.senders@[t2]@[s2].contacts@[c2];
            if t2 != t {
                assert(next.senders@[t2] == self.senders@[t2]);
                assert(rest.contains(self.senders@[t2]@[s2].contacts@[c2]));
            } else {
                match self.slot_of(t, contact.info.rx_node) {
                    None => {
                        if s2 < o.len() {
                            assert(f[s2] == f.take(o.len() as int)[s2]);
                            assert(rest.contains(o[s2].contacts@[c2]));
                        } else {
                            assert(y == contact);
                        }
                    },
                    Some(s) => {
                        if s2 != s {
                            assert(rest.contains(o[s2].contacts@[c2]));
                        } else {
                            let p = choose|p: int|
                                0 <= p <= o[s].contacts@.len() && f[s].contacts@ == o[s].contacts@.insert(p, contact)
                                    && (forall|j: int|
                                    0 <= j < p ==> (#[trigger] o[s].contacts@[j]).info.start <= contact.info.start)
                                    && (p < o[s].contacts@.len() ==> o[s].contacts@[p].info.start
                                    > contact.info.start);
                            if c2 < p {
                                assert(rest.contains(o[s].contacts@[c2]));
                            } else if c2 > p {
                                assert(rest.contains(o[s].contacts@[c2 - 1]));
                            } else {
                                assert(y == contact);
                            }
                        }
                    },
                }
            }
        }
    }

    /// Groups the contacts of a consistent contact plan.
    pub fn new(contact_plan: ContactPlan<NM, CM>) -> (r: Self)
        ensures
            r.wf(),
            r.nodes@ == contact_plan.nodes_view(),
            r.holds_exactly(contact_plan.contacts_view()),
    {
        let (nodes, contacts) = contact_plan.into_parts();
        let n = nodes.len();
        let mut senders: Vec<Vec<Receiver<CM>>> = Vec::new();
        let mut t: usize = 0;
        while t < n
            invariant
                0 <= t <= n,
                senders@.len() == t,
                forall|i: int| 0 <= i < t ==> (#[trigger] senders@[i])@.len() == 0,
            decreases n - t,
        {
            senders.push(Vec::new());
            t = t + 1;
        }
        let ghost the_nodes = nodes@;
        let mut graph = Multigraph { nodes, senders };
        let ghost all = contacts@;
        let mut contacts = contacts;
        proof {
            assert(all.skip(all.len() as int) =~= Seq::<Contact<CM>>::empty());
            assert(all.take(all.len() as int) =~= all);
        }
        while contacts.len() > 0
            invariant
                graph.wf(),
                graph.nodes@ == the_nodes,
                graph.nodes@.len() == n,
                n <= 0x1_0000,
                forall|k: int|
                    0 <= k < contacts@.len() ==> (#[trigger] contacts@[k]).info.tx_node < n
                        && contacts@[k].info.rx_node < n && contacts@[k].manager.wf(),
                contacts@.len() <= all.len(),
                contacts@ == all.take(contacts@.len() as int),
                graph.holds_exactly(all.skip(contacts@.len() as int)),
            decreases contacts@.len(),
        {
            let ghost before = contacts@;
            let ghost g0 = graph;
            let c = contacts.pop().unwrap();
            assert(c == before[before.len() - 1]);
            graph.add_contact(c);
            proof {
                let m = before.len() as int;
                g0.lemma_adds_holds(graph, c, all.skip(m));
                assert(seq![c] + all.skip(m) =~= all.skip(m - 1));
                assert(contacts@ =~= all.take(m - 1));
            }
        }
        proof {
            assert(all.skip(0) =~= all);
        }
        graph
    }

    /// Places `contact` among the contacts from its sending node to its receiving
    /// node, after those that do not open later.
    fn add_contact(&mut self, contact: Contact<CM>)
        requires
            old(self).wf(),
            contact.info.tx_node < old(self).nodes@.len(),
            contact.info.rx_node < old(self).nodes@.len(),
            contact.manager.wf(),
        ensures
            final(self).wf(),
            final(self).nodes@ == old(self).nodes@,
            old(self).adds(*final(self), contact),
    {
        let t = contact.info.tx_node as usize;
        let rx = contact.info.rx_node;
        let mut s: usize = 0;
        let m = self.senders[t].len();
        while s < m && self.senders[t][s].rx != rx
            invariant
                self.wf(),
                t < self.senders@.len(),
                m == self.senders@[t as int]@.len(),
                0 <= s <= m,
                forall|j: int| 0 <= j < s ==> (#[trigger] self.senders@[t as int]@[j]).rx != rx,
            decreases m - s,
        {
            s = s + 1;
        }
        let ghost old_senders = self.senders@;
        if s == m {
            let mut cs: Vec<Contact<CM>> = Vec::new();
            cs.push(contact);
            let ghost r = Receiver { rx, contacts: cs };
            assert(cs@ =~= seq![contact]);
            self.senders[t].push(Receiver { rx, contacts: cs });
            proof {
                assert(self.senders@[t as int]@ == old_senders[t as int]@.push(r));
                assert(self.senders@[t as int]@.take(m as int) =~= old_senders[t as int]@);
                assert(old_senders == old(self).senders@);
                assert(self.senders@[t as int]@[m as int].contacts@ == seq![contact]);
                assert forall|t2: int| 0 <= t2 < self.senders@.len() && t2 != t implies #[trigger] self.senders@[t2]
                    == old_senders[t2] by {}
                assert(!(exists|s3: int|
                    0 <= s3 < old_senders[t as int]@.len() && (#[trigger] old_senders[t as int]@[s3]).rx == rx));
                assert(old(self).slot_of(t as int, rx) is None);
                assert forall|t2: int, s2: int|
                    0 <= t2 < self.senders@.len() && 0 <= s2 < self.senders@[t2]@.len() implies self.receiver_wf(
                    t2,
                    s2,
                ) by {
                    if t2 != t as int || s2 < m {
                        assert(self.senders@[t2]@[s2] == old_senders[t2]@[s2]);
                        assert(old(self).receiver_wf(t2, s2));
                    } else {
                        assert(self.senders@[t2]@[s2] == r);
                        assert(r.contacts@ =~= seq![contact]);
                    }
                }
                assert forall|t2: int, s1: int, s2: int|
                    0 <= t2 < self.senders@.len() && 0 <= s1 < s2 < self.senders@[t2]@.len()
                        implies #[trigger] self.senders@[t2]@[s1].rx != #[trigger] self.senders@[t2]@[s2].rx by {
                    if t2 != t as int {
                        assert(self.senders@[t2] == old_senders[t2]);
                    } else if s2 < m {
                        assert(self.senders@[t2]@[s1] == old_senders[t2]@[s1]);
                        assert(self.senders@[t2]@[s2] == old_senders[t2]@[s2]);
                    } else {
                        assert(self.senders@[t2]@[s1] == old_senders[t2]@[s1]);
                    }
                }
                assert(old(self).adds(*self, contact));
            }
        } else {
            let len = self.senders[t][s].contacts.len();
            let mut p: usize = 0;
            while p < len && self.senders[t][s].contacts[p].info.start <= contact.info.start
                invariant
                    self.wf(),
                    self.senders@ == old_senders,
                    t < self.senders@.len(),
                    s < self.senders@[t as int]@.len(),
                    len == self.senders@[t as int]@[s as int].contacts@.len(),
                    0 <= p <= len,
                    forall|j: int|
                        0 <= j < p ==> (#[trigger] self.senders@[t as int]@[s as int].contacts@[j]).info.start
                            <= contact.info.start,
                decreases len - p,
            {
                p = p + 1;
            }
            let ghost oldr = old_senders[t as int]@[s as int];
            proof {
                assert(old_senders[t as int]@[s as int].rx == rx);
                let c = choose|c: int|
                    0 <= c < old_senders[t as int]@.len() && (#[trigger] old_senders[t as int]@[c]).rx == rx;
                if c != s as int {
                    if c < s {
                        assert(old_senders[t as int]@[c].rx != rx);
                    } else {
                        assert(old_senders[t as int]@[s as int].rx != old_senders[t as int]@[c].rx);
                    }
                }
                assert(old(self).slot_of(t as int, rx) == Some(s as int));
                assert(p < len ==> oldr.contacts@[p as int].info.start > contact.info.start);
            }
            self.senders[t][s].contacts.insert(p, contact);
            proof {
                let nr = self.senders@[t as int]@[s as int];
                assert(nr.contacts@ == oldr.contacts@.insert(p as int, contact));
                assert(nr.rx == oldr.rx);
                assert(old(self).receiver_wf(t as int, s as int));
                assert(by_start(nr.contacts@)) by {
                    assert forall|i: int, j: int| 0 <= i < j < nr.contacts@.len() implies #[trigger] nr.contacts@[i].info.start
                        <= #[trigger] nr.contacts@[j].info.start by {
                        if j < p {
                        } else if j == p {
                        } else if i < p {
                            if p < len {
                                assert(oldr.contacts@[p as int].info.start > contact.info.start);
                            }
                        } else if i == p {
                            assert(oldr.contacts@[p as int].info.start > contact.info.start);
                        }
                    }
                }
                assert forall|t2: int, s2: int|
                    0 <= t2 < self.senders@.len() && 0 <= s2 < self.senders@[t2]@.len() implies self.receiver_wf(
                    t2,
                    s2,
                ) by {
                    if t2 != t as int || s2 != s as int {
                        assert(self.senders@[t2]@[s2] == old_senders[t2]@[s2]);
                        assert(old(self).receiver_wf(t2, s2));
                    } else {
                        assert forall|k: int| 0 <= k < nr.contacts@.len() implies (#[trigger] nr.contacts@[k]).info.tx_node
                            == t2 && nr.contacts@[k].info.rx_node == nr.rx && nr.contacts@[k].manager.wf() by {
                            if k < p {
                                assert(nr.contacts@[k] == oldr.contacts@[k]);
                            } else if k > p {
                                assert(nr.contacts@[k] == oldr.contacts@[k - 1]);
                            }
                        }
                    }
                }
                assert forall|t2: int, s1: int, s2: int|
                    0 <= t2 < self.senders@.len() && 0 <= s1 < s2 < self.senders@[t2]@.len()
                        implies #[trigger] self.senders@[t2]@[s1].rx != #[trigger] self.senders@[t2]@[s2].rx by {
                    assert(self.senders@[t2]@[s1].rx == old_senders[t2]@[s1].rx);
                    assert(self.senders@[t2]@[s2].rx == old_senders[t2]@[s2].rx);
                }
                assert(self.senders@[t as int]@.len() == old_senders[t as int]@.len());
                assert forall|s2: int| 0 <= s2 < m && s2 != s implies #[trigger] self.senders@[t as int]@[s2]
                    == old_senders[t as int]@[s2] by {}
                assert forall|t2: int| 0 <= t2 < self.senders@.len() && t2 != t implies #[trigger] self.senders@[t2]
                    == old_senders[t2] by {}
                assert(nr.contacts@ == oldr.contacts@.insert(p as int, contact));
                assert(old_senders == old(self).senders@);
                assert(forall|j: int| 0 <= j < p ==> (#[trigger] oldr.contacts@[j]).info.start <= contact.info.start);
                assert(0 <= p <= oldr.contacts@.len() && nr.contacts@ == oldr.contacts@.insert(p as int, contact)
                    && (forall|j: int| 0 <= j < p ==> (#[trigger] oldr.contacts@[j]).info.start <= contact.info.start)
                    && (p < oldr.contacts@.len() ==> oldr.contacts@[p as int].info.start > contact.info.start));
                assert(self.senders@.len() == old(self).senders@.len());
                let o = old(self).senders@[t as int]@;
                let f = self.senders@[t as int]@;
                assert(f[s as int].contacts@ == o[s as int].contacts@.insert(p as int, contact));
                assert(exists|p2: int|
                    0 <= p2 <= o[s as int].contacts@.len() && f[s as int].contacts@ == o[s as int].contacts@.insert(p2, contact)
                        && (forall|j: int| 0 <= j < p2 ==> (#[trigger] o[s as int].contacts@[j]).info.start <= contact.info.start)
                        && (p2 < o[s as int].contacts@.len() ==> o[s as int].contacts@[p2].info.start > contact.info.start));
                assert(old(self).adds(*self, contact));
            }
        }
    }
}

} // verus!
