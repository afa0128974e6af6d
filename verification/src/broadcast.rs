//! The broadcast workload: values arrive at single nodes and spread to
//! every node by gossip, with per-peer digest tracking and a bounded
//! random redundancy against message loss.
//!
//! The node keeps the set of values it has accepted, a lower bound on
//! what each peer holds (grown only when a peer's own gossip confirms a
//! value), and the neighborhood it gossips to. Every gossip to a peer
//! carries at least everything the peer is not yet known to hold; on top
//! of that a random tenth of the already-known values rides along as
//! insurance against lost messages. Sending never credits the peer:
//! a lost gossip must not suppress future transmissions.

use crate::values::ValueSet;
use crate::{Body, Event, Init, Message, ProtocolError};
use vstd::prelude::*;

verus! {

/// One entry of a topology map: a node and the peers it gossips to.
#[derive(Debug, Clone)]
pub struct TopologyEntry {
    pub node: String,
    pub neighbors: Vec<String>,
}

/// The payload namespace of the broadcast workload.
#[derive(Debug, Clone)]
pub enum BroadcastPayload {
    Broadcast { message: usize },
    BroadcastOk,
    Read,
    ReadOk { messages: Vec<usize> },
    Topology { topology: Vec<TopologyEntry> },
    TopologyOk,
    Gossip { seen: Vec<usize> },
}

/// The timer signal that triggers one round of gossip.
pub enum InjectedPayload {
    Gossip,
}

/// What one peer has confirmed to hold.
pub struct PeerEntry {
    pub peer: String,
    pub seen: ValueSet,
}

/// Whether some digest entry is for `name`.
pub open spec fn has_peer(known: Seq<PeerEntry>, name: Seq<char>) -> bool {
    exists|j: int| 0 <= j < known.len() && known[j].peer@ == name
}

/// No two digest entries are for the same peer.
pub open spec fn peers_distinct(known: Seq<PeerEntry>) -> bool {
    forall|i: int, j: int| 0 <= i < j < known.len() ==> known[i].peer@ != known[j].peer@
}

/// The set the first digest entry for `name` holds (empty when there is
/// none).
pub open spec fn known_seen(known: Seq<PeerEntry>, name: Seq<char>) -> Set<usize>
    decreases known.len(),
{
    if known.len() == 0 {
        Set::empty()
    } else if known[0].peer@ == name {
        known[0].seen@
    } else {
        known_seen(known.drop_first(), name)
    }
}

pub proof fn lemma_known_seen_at(known: Seq<PeerEntry>, j: int)
    requires
        peers_distinct(known),
        0 <= j < known.len(),
    ensures
        known_seen(known, known[j].peer@) == known[j].seen@,
    decreases j,
{
    if j > 0 {
        assert(known[0].peer@ != known[j].peer@);
        let rest = known.drop_first();
        assert(peers_distinct(rest)) by {
            assert forall|a: int, b: int|
                0 <= a < b < rest.len() implies rest[a].peer@ != rest[b].peer@ by {
                assert(rest[a] == known[a + 1]);
                assert(rest[b] == known[b + 1]);
            }
        }
        assert(rest[j - 1] == known[j]);
        lemma_known_seen_at(rest, j - 1);
    }
}

/// The neighbor list that a topology map assigns to `name` (the first
/// matching entry; empty when there is none).
pub open spec fn topo_neighbors(t: Seq<TopologyEntry>, name: Seq<char>) -> Seq<String>
    decreases t.len(),
{
    if t.len() == 0 {
        Seq::empty()
    } else if t[0].node@ == name {
        t[0].neighbors@
    } else {
        topo_neighbors(t.drop_first(), name)
    }
}

/// Whether a topology map has an entry for `name`.
pub open spec fn topo_has(t: Seq<TopologyEntry>, name: Seq<char>) -> bool {
    exists|j: int| 0 <= j < t.len() && t[j].node@ == name
}

pub proof fn lemma_topo_neighbors_at(t: Seq<TopologyEntry>, j: int)
    requires
        0 <= j < t.len(),
        forall|k: int| 0 <= k < j ==> t[k].node@ != t[j].node@,
    ensures
        topo_neighbors(t, t[j].node@) == t[j].neighbors@,
    decreases j,
{
    if j > 0 {
        let rest = t.drop_first();
        assert(rest[j - 1] == t[j]);
        assert forall|k: int| 0 <= k < j - 1 implies (#[trigger] rest[k]).node@ != rest[j
            - 1].node@ by {
            assert(rest[k] == t[k + 1]);
        }
        lemma_topo_neighbors_at(rest, j - 1);
    }
}

/// What one gossip record to `peer` must look like: a bare envelope (no
/// sequence number, no reply slot), carrying only values the node holds,
/// and among them every value the peer is not yet known to hold.
pub open spec fn gossip_msg_ok(
    st: BroadcastNode,
    peer: String,
    m: Message<BroadcastPayload>,
) -> bool {
    &&& m.src == st.node
    &&& m.dst == peer
    &&& m.body.id is None
    &&& m.body.in_reply_to is None
    &&& m.body.payload matches BroadcastPayload::Gossip { seen } && {
        &&& seen@.to_set().subset_of(st.messages@)
        &&& forall|v: usize|
            st.messages@.contains(v) && !known_seen(st.known@, peer@).contains(v)
                ==> seen@.to_set().contains(v)
    }
}

/// How receiving `gossip{vals}` from `src` changes the digests: the
/// sender's entry grows by exactly the carried values, every other entry
/// is untouched.
pub open spec fn gossip_merge_ok(
    before: Seq<PeerEntry>,
    after: Seq<PeerEntry>,
    src: Seq<char>,
    vals: Set<usize>,
) -> bool {
    &&& after.len() == before.len()
    &&& forall|t: int| 0 <= t < before.len() ==> (#[trigger] after[t]).peer == before[t].peer
    &&& forall|t: int|
        0 <= t < before.len() && before[t].peer@ != src ==> (#[trigger] after[t]).seen@
            == before[t].seen@
    &&& forall|t: int|
        0 <= t < before.len() && before[t].peer@ == src ==> (#[trigger] after[t]).seen@
            == before[t].seen@ + vals
}

/// One full round of gossip: one record per neighborhood entry, in
/// neighborhood order.
pub open spec fn gossip_round_ok(st: BroadcastNode, outs: Seq<Message<BroadcastPayload>>) -> bool {
    &&& outs.len() == st.neighborhood@.len()
    &&& forall|k: int|
        0 <= k < outs.len() ==> gossip_msg_ok(st, st.neighborhood@[k], #[trigger] outs[k])
}

/// The broadcast node.
pub struct BroadcastNode {
    /// This node's name.
    pub node: String,
    /// The next sequence number to assign.
    pub id: usize,
    /// Every value this node has ever accepted.
    pub messages: ValueSet,
    /// For each peer, a lower bound on the values it holds.
    pub known: Vec<PeerEntry>,
    /// The peers this node gossips to.
    pub neighborhood: Vec<String>,
}

/// Relies on `rand::random_ratio`: the draw is true with probability
/// `num / den`; a zero numerator never draws true and a full numerator
/// always does. It panics on a zero denominator or a numerator above the
/// denominator, so those are kept out.
#[verifier::external_body]
fn gossip_coin(num: u32, den: u32) -> (r: bool)
    requires
        0 < den,
        num <= den,
    ensures
        num == 0 ==> !r,
        num == den ==> r,
{
    rand::random_ratio(num, den)
}

impl BroadcastNode {
    /// The node's internal consistency: no duplicate values, one digest
    /// entry per peer, nothing credited to a peer that the node does not
    /// itself hold, and every neighborhood entry has a digest entry.
    pub open spec fn wf(self) -> bool {
        &&& self.messages.wf()
        &&& peers_distinct(self.known@)
        &&& forall|j: int| 0 <= j < self.known@.len() ==> (#[trigger] self.known@[j]).seen.wf()
        &&& forall|j: int|
            0 <= j < self.known@.len() ==> (#[trigger] self.known@[j]).seen@.subset_of(
                self.messages@,
            )
        &&& forall|i: int|
            0 <= i < self.neighborhood@.len() ==> has_peer(
                self.known@,
                (#[trigger] self.neighborhood@[i])@,
            )
    }

    /// Set up the node from the initialization record: no values yet, an
    /// empty digest for every node of the cluster, no neighborhood until
    /// a topology arrives, and sequence numbers starting at 1 (number 0
    /// went to the `init_ok`).
    pub fn from_init(init: Init) -> (r: Self)
        requires
            forall|i: int, j: int|
                0 <= i < j < init.node_ids@.len() ==> init.node_ids@[i]@ != init.node_ids@[j]@,
        ensures
            r.wf(),
            r.node == init.node_id,
            r.id == 1,
            r.messages@ =~= Set::<usize>::empty(),
            r.neighborhood@ =~= Seq::<String>::empty(),
            r.known@.len() == init.node_ids@.len(),
            forall|j: int|
                0 <= j < r.known@.len() ==> (#[trigger] r.known@[j]).peer == init.node_ids@[j]
                    && r.known@[j].seen@ =~= Set::<usize>::empty(),
    {
        let mut known: Vec<PeerEntry> = Vec::new();
        let n = init.node_ids.len();
        let mut i: usize = 0;
        while i < n
            invariant
                0 <= i <= n,
                n == init.node_ids@.len(),
                known@.len() == i,
                forall|j: int|
                    0 <= j < i ==> (#[trigger] known@[j]).peer == init.node_ids@[j]
                        && known@[j].seen@ =~= Set::<usize>::empty() && known@[j].seen.wf(),
            decreases n - i,
        {
            known.push(PeerEntry { peer: init.node_ids[i].clone(), seen: ValueSet::new() });
            i = i + 1;
        }
        let r = BroadcastNode {
            node: init.node_id,
            id: 1,
            messages: ValueSet::new(),
            known,
            neighborhood: Vec::new(),
        };
        proof {
            assert(peers_distinct(r.known@)) by {
                assert forall|a: int, b: int|
                    0 <= a < b < r.known@.len() implies r.known@[a].peer@ != r.known@[b].peer@ by {
                    assert(r.known@[a].peer == init.node_ids@[a]);
                    assert(r.known@[b].peer == init.node_ids@[b]);
                }
            }
        }
        r
    }

    /// The index of the digest entry for `name`, if the peer is known.
    fn find_peer(&self, name: &String) -> (r: Option<usize>)
        ensures
            match r {
                Some(j) => j < self.known@.len() && self.known@[j as int].peer@ == name@,
                None => !has_peer(self.known@, name@),
            },
    {
        let n = self.known.len();
        let mut i: usize = 0;
        while i < n
            invariant
                0 <= i <= n,
                n == self.known@.len(),
                forall|k: int| 0 <= k < i ==> (#[trigger] self.known@[k]).peer@ != name@,
            decreases n - i,
        {
            if self.known[i].peer.eq(name) {
                return Some(i);
            }
            i = i + 1;
        }
        None
    }

    /// The values one gossip to the peer behind digest entry `j` carries:
    /// everything the peer is not yet known to hold, plus a random
    /// redundancy capped at a tenth of that, drawn from what it is known
    /// to hold.
    fn gossip_values_for(&self, j: usize) -> (r: Vec<usize>)
        requires
            self.wf(),
            j < self.known@.len(),
        ensures
            r@.to_set().subset_of(self.messages@),
            forall|v: usize|
                self.messages@.contains(v) && !self.known@[j as int].seen@.contains(v)
                    ==> r@.to_set().contains(v),
    {
        let ghost seen = self.known@[j as int].seen@;
        let mut notify: Vec<usize> = Vec::new();
        let mut already: Vec<usize> = Vec::new();
        let n = self.messages.len();
        let mut i: usize = 0;
        while i < n
            invariant
                0 <= i <= n,
                self.wf(),
                j < self.known@.len(),
                seen == self.known@[j as int].seen@,
                n == self.messages.items@.len(),
                notify@.to_set().subset_of(self.messages@),
                already@.to_set().subset_of(self.messages@),
                forall|k: int|
                    0 <= k < i && !seen.contains(#[trigger] self.messages.items@[k])
                        ==> notify@.to_set().contains(self.messages.items@[k]),
            decreases n - i,
        {
            let v = self.messages.get(i);
            let ghost notify0 = notify@;
            let ghost already0 = already@;
            if self.known[j].seen.contains(v) {
                already.push(v);
                proof {
                    already0.lemma_push_to_set_commute(v);
                }
            } else {
                notify.push(v);
                proof {
                    notify0.lemma_push_to_set_commute(v);
                }
            }
            i = i + 1;
        }
        proof {
            assert forall|v: usize|
                self.messages@.contains(v) && !seen.contains(v) implies notify@.to_set().contains(
                v,
            ) by {
                assert(self.messages.items@.contains(v));
                let k = choose|k: int|
                    0 <= k < self.messages.items@.len() && self.messages.items@[k] == v;
                assert(!seen.contains(self.messages.items@[k]));
            }
        }
        // The redundancy draw: each already-known value rides along with
        // probability cap / |already|, where the cap is a tenth of the
        // novel values (and never more than |already|).
        let cap_base = notify.len() / 10;
        let a = already.len();
        if a > 0 && a <= 4294967295usize {
            let num_usize = if cap_base < a {
                cap_base
            } else {
                a
            };
            let num = num_usize as u32;
            let den = a as u32;
            let mut k: usize = 0;
            while k < a
                invariant
                    0 <= k <= a,
                    a == already@.len(),
                    0 < den,
                    num <= den,
                    already@.to_set().subset_of(self.messages@),
                    notify@.to_set().subset_of(self.messages@),
                    forall|v: usize|
                        self.messages@.contains(v) && !seen.contains(v)
                            ==> notify@.to_set().contains(v),
                decreases a - k,
            {
                if gossip_coin(num, den) {
                    let ghost notify0 = notify@;
                    notify.push(already[k]);
                    proof {
                        notify0.lemma_push_to_set_commute(already@[k as int]);
                    }
                }
                k = k + 1;
            }
        }
        notify
    }

    /// Handle one event.
    ///
    /// A `broadcast` stores the value and is acknowledged; a `read` is
    /// answered with a snapshot of the values; a `topology` replaces the
    /// neighborhood with the map's entry for this node and is
    /// acknowledged; a peer's `gossip` merges into the values and into
    /// that peer's digest, with no reply. A gossip timer signal emits one
    /// round of gossip and changes nothing. Stray acknowledgements, end
    /// of input, and service records are ignored. The set of values only
    /// ever grows, and every reply follows the envelope discipline.
    #[verifier::loop_isolation(false)]
    pub fn step(&mut self, input: Event<BroadcastPayload, (), InjectedPayload>) -> (r: Result<
        Vec<Message<BroadcastPayload>>,
        ProtocolError,
    >)
        requires
            old(self).wf(),
            old(self).id < usize::MAX,
        ensures
            final(self).wf(),
            final(self).node == old(self).node,
            old(self).messages@.subset_of(final(self).messages@),
            match input {
                Event::EOF => r matches Ok(v) && v@.len() == 0 && *final(self) == *old(self),
                Event::ServiceMessage(_) => r matches Ok(v) && v@.len() == 0 && *final(self)
                    == *old(self),
                Event::Injected(_) => r matches Ok(v) && *final(self) == *old(self)
                    && gossip_round_ok(*old(self), v@),
                Event::Message(m) => {
                    &&& final(self).id == old(self).id + 1
                    &&& match m.body.payload {
                        BroadcastPayload::Broadcast { message } => {
                            &&& r matches Ok(v) && v@.len() == 1
                            &&& crate::reply_envelope(r->Ok_0@[0], m, old(self).id)
                            &&& r->Ok_0@[0].body.payload is BroadcastOk
                            &&& final(self).messages@ == old(self).messages@.insert(message)
                            &&& final(self).known@ == old(self).known@
                            &&& final(self).neighborhood@ == old(self).neighborhood@
                        },
                        BroadcastPayload::Read => {
                            &&& r matches Ok(v) && v@.len() == 1
                            &&& crate::reply_envelope(r->Ok_0@[0], m, old(self).id)
                            &&& r->Ok_0@[0].body.payload matches BroadcastPayload::ReadOk {
                                messages,
                            } && messages@.to_set() == old(self).messages@
                                && messages@.no_duplicates()
                            &&& final(self).messages@ == old(self).messages@
                            &&& final(self).known@ == old(self).known@
                            &&& final(self).neighborhood@ == old(self).neighborhood@
                        },
                        BroadcastPayload::Topology { topology } => {
                            &&& final(self).messages@ == old(self).messages@
                            &&& final(self).known@ == old(self).known@
                            &&& match r {
                                Ok(v) => {
                                    &&& topo_has(topology@, old(self).node@)
                                    &&& final(self).neighborhood@ == topo_neighbors(
                                        topology@,
                                        old(self).node@,
                                    )
                                    &&& v@.len() == 1
                                    &&& crate::reply_envelope(v@[0], m, old(self).id)
                                    &&& v@[0].body.payload is TopologyOk
                                },
                                Err(e) => {
                                    &&& final(self).neighborhood@ == old(self).neighborhood@
                                    &&& if topo_has(topology@, old(self).node@) {
                                        &&& e == ProtocolError::UnknownPeer
                                        &&& exists|i: int|
                                            0 <= i < topo_neighbors(
                                                topology@,
                                                old(self).node@,
                                            ).len() && !has_peer(
                                                old(self).known@,
                                                (#[trigger] topo_neighbors(
                                                    topology@,
                                                    old(self).node@,
                                                )[i])@,
                                            )
                                    } else {
                                        e == ProtocolError::TopologyWithoutSelf
                                    }
                                },
                            }
                        },
                        BroadcastPayload::Gossip { seen } => {
                            &&& final(self).neighborhood@ == old(self).neighborhood@
                            &&& match r {
                                Ok(v) => {
                                    &&& v@.len() == 0
                                    &&& has_peer(old(self).known@, m.src@)
                                    &&& final(self).messages@ == old(self).messages@
                                        + seen@.to_set()
                                    &&& gossip_merge_ok(
                                        old(self).known@,
                                        final(self).known@,
                                        m.src@,
                                        seen@.to_set(),
                                    )
                                },
                                Err(e) => {
                                    &&& e == ProtocolError::UnknownPeer
                                    &&& !has_peer(old(self).known@, m.src@)
                                    &&& final(self).messages@ == old(self).messages@
                                    &&& final(self).known@ == old(self).known@
                                },
                            }
                        },
                        _ => {
                            &&& r matches Ok(v) && v@.len() == 0
                            &&& final(self).messages@ == old(self).messages@
                            &&& final(self).known@ == old(self).known@
                            &&& final(self).neighborhood@ == old(self).neighborhood@
                        },
                    }
                },
            },
    {
        match input {
            Event::EOF => Ok(Vec::new()),
            Event::ServiceMessage(_) => Ok(Vec::new()),
            Event::Injected(_) => {
                let mut outs: Vec<Message<BroadcastPayload>> = Vec::new();
                let n = self.neighborhood.len();
                let mut k: usize = 0;
                while k < n
                    invariant
                        0 <= k <= n,
                        *self == *old(self),
                        self.wf(),
                        n == self.neighborhood@.len(),
                        outs@.len() == k,
                        forall|t: int|
                            0 <= t < k ==> gossip_msg_ok(
                                *self,
                                self.neighborhood@[t],
                                #[trigger] outs@[t],
                            ),
                    decreases n - k,
                {
                    let jopt = self.find_peer(&self.neighborhood[k]);
                    match jopt {
                        None => {
                            proof {
                                assert(has_peer(self.known@, self.neighborhood@[k as int]@));
                                assert(false);
                            }
                            return Err(ProtocolError::UnknownPeer);
                        },
                        Some(j) => {
                            let values = self.gossip_values_for(j);
                            proof {
                                lemma_known_seen_at(self.known@, j as int);
                            }
                            let msg = Message {
                                src: self.node.clone(),
                                dst: self.neighborhood[k].clone(),
                                body: Body {
                                    id: None,
                                    in_reply_to: None,
                                    payload: BroadcastPayload::Gossip { seen: values },
                                },
                            };
                            outs.push(msg);
                        },
                    }
                    k = k + 1;
                }
                Ok(outs)
            },
            Event::Message(m) => {
                let Message { src, dst, body } = m;
                let Body { id: req_id, in_reply_to: _, payload } = body;
                let mid = self.id;
                self.id = mid + 1;
                match payload {
                    BroadcastPayload::Broadcast { message } => {
                        self.messages.insert(message);
                        let reply = Message {
                            src: dst,
                            dst: src,
                            body: Body {
                                id: Some(mid),
                                in_reply_to: req_id,
                                payload: BroadcastPayload::BroadcastOk,
                            },
                        };
                        let mut outs: Vec<Message<BroadcastPayload>> = Vec::new();
                        outs.push(reply);
                        Ok(outs)
                    },
                    BroadcastPayload::Read => {
                        let snap = self.messages.snapshot();
                        let reply = Message {
                            src: dst,
                            dst: src,
                            body: Body {
                                id: Some(mid),
                                in_reply_to: req_id,
                                payload: BroadcastPayload::ReadOk { messages: snap },
                            },
                        };
                        let mut outs: Vec<Message<BroadcastPayload>> = Vec::new();
                        outs.push(reply);
                        Ok(outs)
                    },
                    BroadcastPayload::Topology { mut topology } => {
                        let ghost topo0 = topology@;
                        let tn = topology.len();
                        let mut ti: usize = 0;
                        let mut found = false;
                        while ti < tn && !found
                            invariant
                                0 <= ti <= tn,
                                tn == topology@.len(),
                                self.node == old(self).node,
                                self.id == old(self).id + 1,
                                self.messages == old(self).messages,
                                self.known == old(self).known,
                                self.neighborhood == old(self).neighborhood,
                                found ==> ti < tn && topology@[ti as int].node@ == self.node@,
                                forall|c: int|
                                    0 <= c < ti ==> (#[trigger] topology@[c]).node@ != self.node@,
                            decreases tn - ti + (if found {
                                0int
                            } else {
                                1int
                            }),
                        {
                            if topology[ti].node.eq(&self.node) {
                                found = true;
                            } else {
                                ti = ti + 1;
                            }
                        }
                        if !found {
                            proof {
                                assert(!topo_has(topology@, self.node@));
                            }
                            return Err(ProtocolError::TopologyWithoutSelf);
                        }
                        proof {
                            lemma_topo_neighbors_at(topology@, ti as int);
                        }
                        // Every named neighbor must have a digest entry.
                        let entry = topology.remove(ti);
                        proof {
                            assert(entry == topo0[ti as int]);
                            assert(topo_neighbors(topo0, self.node@) == entry.neighbors@);
                        }
                        let nn = entry.neighbors.len();
                        let mut c: usize = 0;
                        while c < nn
                            invariant
                                0 <= c <= nn,
                                nn == entry.neighbors@.len(),
                                self.node == old(self).node,
                                self.id == old(self).id + 1,
                                self.messages == old(self).messages,
                                self.known == old(self).known,
                                self.neighborhood == old(self).neighborhood,
                                forall|t: int|
                                    0 <= t < c ==> has_peer(
                                        self.known@,
                                        (#[trigger] entry.neighbors@[t])@,
                                    ),
                            decreases nn - c,
                        {
                            match self.find_peer(&entry.neighbors[c]) {
                                None => {
                                    proof {
                                        let nbrs = topo_neighbors(topo0, old(self).node@);
                                        assert(nbrs[c as int] == entry.neighbors@[c as int]);
                                        assert(0 <= c < nbrs.len() && !has_peer(
                                            old(self).known@,
                                            nbrs[c as int]@,
                                        ));
                                    }
                                    return Err(ProtocolError::UnknownPeer);
                                },
                                Some(_) => {},
                            }
                            c = c + 1;
                        }
                        self.neighborhood = entry.neighbors;
                        let reply = Message {
                            src: dst,
                            dst: src,
                            body: Body {
                                id: Some(mid),
                                in_reply_to: req_id,
                                payload: BroadcastPayload::TopologyOk,
                            },
                        };
                        let mut outs: Vec<Message<BroadcastPayload>> = Vec::new();
                        outs.push(reply);
                        Ok(outs)
                    },
                    BroadcastPayload::Gossip { seen } => {
                        match self.find_peer(&src) {
                            None => Err(ProtocolError::UnknownPeer),
                            Some(j) => {
                                let ghost known0 = self.known@;
                                self.messages.extend_from(&seen);
                                let mut entry = self.known.remove(j);
                                entry.seen.extend_from(&seen);
                                self.known.insert(j, entry);
                                proof {
                                    assert(self.known@ =~= known0.update(
                                        j as int,
                                        self.known@[j as int],
                                    ));
                                    assert(gossip_merge_ok(
                                        known0,
                                        self.known@,
                                        src@,
                                        seen@.to_set(),
                                    )) by {
                                        assert forall|t: int|
                                            0 <= t < known0.len() && known0[t].peer@ != src@
                                                implies (#[trigger] self.known@[t]).seen@
                                            == known0[t].seen@ by {
                                            assert(known0[t].peer@ != known0[j as int].peer@);
                                            assert(t != j);
                                        }
                                        assert forall|t: int|
                                            0 <= t < known0.len() && known0[t].peer@ == src@
                                                implies (#[trigger] self.known@[t]).seen@
                                            == known0[t].seen@ + seen@.to_set() by {
                                            if t != j {
                                                assert(known0[t].peer@ != known0[j as int].peer@);
                                                assert(false);
                                            }
                                        }
                                    }
                                    assert(self.wf()) by {
                                        assert forall|t: int|
                                            0 <= t < self.known@.len() implies (
                                        #[trigger] self.known@[t]).seen@.subset_of(
                                            self.messages@,
                                        ) by {
                                            assert(known0[t].seen@.subset_of(old(self).messages@));
                                        }
                                        assert forall|i: int|
                                            0 <= i < self.neighborhood@.len() implies has_peer(
                                            self.known@,
                                            (#[trigger] self.neighborhood@[i])@,
                                        ) by {
                                            let w = choose|w: int|
                                                0 <= w < known0.len() && known0[w].peer@
                                                    == self.neighborhood@[i]@;
                                            assert(self.known@[w].peer@ == self.neighborhood@[i]@);
                                        }
                                    }
                                }
                                Ok(Vec::new())
                            },
                        }
                    },
                    BroadcastPayload::BroadcastOk => Ok(Vec::new()),
                    BroadcastPayload::ReadOk { .. } => Ok(Vec::new()),
                    BroadcastPayload::TopologyOk => Ok(Vec::new()),
                }
            },
        }
    }
}

/// Gossip spreads everything novel: if a gossip record meets its
/// obligation to `peer`, then after the peer merges the carried values,
/// the peer holds every value of the sender that the sender had not
/// already credited to it. Eventual delivery follows round by round, as
/// long as gossip keeps flowing.
pub proof fn lemma_gossip_propagates(
    sender: BroadcastNode,
    peer: String,
    m: Message<BroadcastPayload>,
    receiver_before: Set<usize>,
    receiver_after: Set<usize>,
)
    requires
        gossip_msg_ok(sender, peer, m),
        m.body.payload matches BroadcastPayload::Gossip { seen } && receiver_after
            == receiver_before + seen@.to_set(),
    ensures
        forall|v: usize|
            sender.messages@.contains(v) && !known_seen(sender.known@, peer@).contains(v)
                ==> receiver_after.contains(v),
{
}

/// The neighborhood after a topology record depends only on the map and
/// the node's name: re-sending the same map leaves it as it was, and a
/// different map replaces it outright.
pub proof fn lemma_topology_idempotent(
    t: Seq<TopologyEntry>,
    name: Seq<char>,
    n1: Seq<String>,
    n2: Seq<String>,
)
    requires
        n1 == topo_neighbors(t, name),
        n2 == topo_neighbors(t, name),
    ensures
        n1 == n2,
{
}

/// A node's value set is monotone over a whole run: across any sequence
/// of states in which each event only grows the set — as every event of
/// this engine does, by `step`'s contract — the set read at any earlier
/// point is contained in the set read at any later one.
pub proof fn lemma_messages_monotonic_over_run(states: Seq<Set<usize>>, i: int, j: int)
    requires
        0 <= i <= j < states.len(),
        forall|k: int| 0 <= k < states.len() - 1 ==> (#[trigger] states[k]).subset_of(
            states[k + 1],
        ),
    ensures
        states[i].subset_of(states[j]),
    decreases j - i,
{
    if i < j {
        lemma_messages_monotonic_over_run(states, i, j - 1);
        assert(states[j - 1].subset_of(states[j]));
    }
}

} // verus!
