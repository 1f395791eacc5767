use std::rc::Rc;
use vstd::prelude::*;

use crate::fanout::{fanout_targets, name_set, topo_view, unreached_peers};
use crate::link_kv::{
    alloc_next, cas_reply, phase_ok, phase_op, read_reply, AllocPhase, LinkKv, OffsetAllocation,
};
use crate::log::{
    commit_all, keys_unique, lemma_pairs_map, listed_offsets, log_merge, messages_from,
    offsets_ascending, pairs_map,
};
use crate::message::{Body, Message, Payload};
use crate::message_queue::{gossip_map, gossip_unique, Durability, MessageQueue, PendingSend};
use crate::node_state::{counter_merge, record_sum, txn_apply, txn_result, NodeState};

verus! {

/// An append that waits for its offset from the key-value service.
#[derive(Debug)]
pub struct PendingAppend {
    /// Who asked for the append.
    pub client: String,
    /// The id of the client's request.
    pub request_id: Option<usize>,
    /// The value to append.
    pub msg: i64,
    pub allocation: OffsetAllocation,
    /// The id of the request to the service that is awaiting its reply.
    pub kv_request: usize,
}

/// The topology after each (node, neighbours) entry is recorded in turn,
/// replacing what was known of that node.
pub open spec fn topo_insert_all(
    m: Map<Seq<char>, Seq<Seq<char>>>,
    entries: Seq<(Seq<char>, Seq<Seq<char>>)>,
) -> Map<Seq<char>, Seq<Seq<char>>>
    decreases entries.len(),
{
    if entries.len() == 0 {
        m
    } else {
        topo_insert_all(m, entries.drop_last()).insert(entries.last().0, entries.last().1)
    }
}

/// `q2` is `q1` with one more best-effort send at its end, from `src` to
/// `dst`, with id `id` and answering `in_reply_to`.
pub open spec fn sent_reply(
    q1: Seq<PendingSend>,
    q2: Seq<PendingSend>,
    src: Seq<char>,
    dst: Seq<char>,
    id: usize,
    in_reply_to: Option<usize>,
) -> bool {
    &&& q2.len() == q1.len() + 1
    &&& q2.drop_last() == q1
    &&& q2.last().durability == Durability::BestEffort
    &&& q2.last().message.src@ == src
    &&& q2.last().message.dst@ == dst
    &&& q2.last().message.body.id == Some(id)
    &&& q2.last().message.body.in_reply_to == in_reply_to
}

/// Every send that `q2` adds after `q1` carries an id from `lo` up to but
/// not including `hi`.
pub open spec fn fresh_ids(q1: Seq<PendingSend>, q2: Seq<PendingSend>, lo: usize, hi: usize) -> bool {
    forall|i: int|
        q1.len() <= i < q2.len() ==> ((#[trigger] q2[i]).message.body.id matches Some(x) && lo <= x
            < hi)
}

/// The payload of the last queued send.
pub open spec fn last_payload(q: Seq<PendingSend>) -> Payload {
    q.last().message.body.payload
}

/// The gossip buffer after a relay of the state from `me` to each of
/// `targets`: every target has a snapshot of `state` from `me`, answering
/// nothing, with a message id of its own from `lo` up to but not including
/// `hi`, and the other destinations keep theirs.
pub open spec fn relayed(
    g1: Map<Seq<char>, Rc<Message>>,
    g2: Map<Seq<char>, Rc<Message>>,
    targets: Set<Seq<char>>,
    me: Seq<char>,
    state: NodeState,
    lo: usize,
    hi: usize,
) -> bool {
    &&& g2.dom() == g1.dom() + targets
    &&& forall|d: Seq<char>| g1.contains_key(d) && !targets.contains(d) ==> g2[d] == g1[d]
    &&& forall|d: Seq<char>|
        #[trigger] targets.contains(d) ==> g2[d].src@ == me && g2[d].dst@ == d
            && g2[d].body.in_reply_to is None && (g2[d].body.id matches Some(x) && lo <= x < hi)
            && (match g2[d].body.payload {
            Payload::Gossip { received_state } => received_state.counter@ == state.counter@
                && received_state.key_value_store@ == state.key_value_store@ && received_state.log@
                == state.log@,
            _ => false,
        })
    &&& forall|d1: Seq<char>, d2: Seq<char>|
        #![trigger targets.contains(d1), targets.contains(d2)]
        targets.contains(d1) && targets.contains(d2) && d1 != d2 ==> g2[d1].body.id
            != g2[d2].body.id
}

/// A cluster node: who it is, its peers and topology, the id of its next
/// message, its delivery engine, its client of the key-value service, its
/// convergent state, and the append it is waiting on, if any.
#[derive(Debug)]
pub struct Node {
    name: String,
    connected_to: Vec<String>,
    msg_id: usize,
    topology: Vec<(String, Vec<String>)>,
    message_queue: MessageQueue,
    key_value_store: LinkKv,
    state: NodeState,
    append: Option<PendingAppend>,
}

impl Node {
    pub closed spec fn wf(&self) -> bool {
        &&& self.message_queue.wf()
        &&& keys_unique(topo_view(self.topology@))
        &&& match self.append {
            Some(a) => phase_ok(a.allocation.phase),
            None => true,
        }
    }

    pub closed spec fn name_spec(&self) -> Seq<char> {
        self.name@
    }

    pub closed spec fn peers_spec(&self) -> Seq<String> {
        self.connected_to@
    }

    pub closed spec fn next_id_spec(&self) -> usize {
        self.msg_id
    }

    pub closed spec fn topology_spec(&self) -> Map<Seq<char>, Seq<Seq<char>>> {
        pairs_map(topo_view(self.topology@))
    }

    pub closed spec fn topology_entries(&self) -> Seq<(Seq<char>, Seq<Seq<char>>)> {
        topo_view(self.topology@)
    }

    pub closed spec fn queue_spec(&self) -> MessageQueue {
        self.message_queue
    }

    pub closed spec fn state_spec(&self) -> NodeState {
        self.state
    }

    pub closed spec fn kv_name_spec(&self) -> Seq<char> {
        self.key_value_store.node_name@
    }

    pub closed spec fn append_spec(&self) -> Option<PendingAppend> {
        self.append
    }

    /// The node can take its next message: it waits on no append, and its
    /// message ids cannot run out within one step.
    pub open spec fn can_step(&self) -> bool {
        &&& self.append_spec() is None
        &&& self.next_id_spec() + self.peers_spec().len() + 2 <= usize::MAX
    }

    pub fn new(message_queue: MessageQueue, key_value_store: LinkKv) -> (r: Node)
        requires
            message_queue.wf(),
        ensures
            r.wf(),
            r.name_spec() == "no_name"@,
            r.peers_spec() == Seq::<String>::empty(),
            r.next_id_spec() == 0,
            r.topology_spec() == Map::<Seq<char>, Seq<Seq<char>>>::empty(),
            r.queue_spec() == message_queue,
            r.append_spec() is None,
            r.state_spec().counter@ == Set::<(Seq<char>, u64)>::empty(),
            r.state_spec().key_value_store@ == Map::<i32, i32>::empty(),
            r.state_spec().log@.messages == Map::<(Seq<char>, usize), i64>::empty(),
            r.state_spec().log@.committed == Map::<(Seq<char>, Seq<char>), usize>::empty(),
    {
        let r = Node {
            name: "no_name".to_owned(),
            connected_to: Vec::new(),
            msg_id: 0,
            topology: Vec::new(),
            message_queue,
            state: NodeState::new(),
            key_value_store,
            append: None,
        };
        proof {
            assert(topo_view(r.topology@) =~= Seq::empty());
            assert(pairs_map(topo_view(r.topology@)) =~= Map::empty());
        }
        r
    }

    pub fn name(&self) -> (r: &String)
        ensures
            r@ == self.name_spec(),
    {
        &self.name
    }

    pub fn next_msg_id(&self) -> (r: usize)
        ensures
            r == self.next_id_spec(),
    {
        self.msg_id
    }

    pub fn peers(&self) -> (r: &Vec<String>)
        ensures
            r@ == self.peers_spec(),
    {
        &self.connected_to
    }

    pub fn state(&self) -> (r: &NodeState)
        ensures
            *r == self.state_spec(),
    {
        &self.state
    }

    pub fn message_queue(&self) -> (r: &MessageQueue)
        ensures
            *r == self.queue_spec(),
    {
        &self.message_queue
    }

    /// Whether an append waits on the key-value service.
    pub fn awaiting_kv(&self) -> (r: bool)
        ensures
            r == self.append_spec() is Some,
    {
        self.append.is_some()
    }

    /// Whether `step` may be called now.
    pub fn ready(&self) -> (r: bool)
        ensures
            r == self.can_step(),
    {
        self.append.is_none() && self.connected_to.len() <= usize::MAX - 2 && self.msg_id
            <= usize::MAX - 2 - self.connected_to.len()
    }

    /// Runs one delivery cycle of the node's engine: the pending sends that
    /// are not acked go out in order, and, when the coalescing window has
    /// passed or a flush was asked for, the buffered snapshots after them.
    pub fn deliver(&mut self, window_elapsed: bool) -> (out: Vec<Rc<Message>>)
        requires
            old(self).wf(),
        ensures
            final(self).wf(),
            ({
                let q = old(self).queue_spec();
                let d = crate::message_queue::drain(q.pending_spec(), q.acked_spec());
                &&& d.0.len() <= out@.len()
                &&& out@.subrange(0, d.0.len() as int) == d.0
                &&& final(self).queue_spec().pending_spec() == d.1
                &&& final(self).queue_spec().acked_spec() == d.2
                &&& if window_elapsed || q.flush_spec() {
                    &&& gossip_unique(out@.subrange(d.0.len() as int, out@.len() as int))
                    &&& gossip_map(out@.subrange(d.0.len() as int, out@.len() as int))
                        == q.gossip_spec()
                    &&& final(self).queue_spec().gossip_spec() == Map::<Seq<char>, Rc<Message>>::empty()
                    &&& !final(self).queue_spec().flush_spec()
                } else {
                    &&& out@.len() == d.0.len()
                    &&& final(self).queue_spec().gossip_spec() == q.gossip_spec()
                    &&& final(self).queue_spec().flush_spec() == q.flush_spec()
                }
            }),
            final(self).state_spec() == old(self).state_spec(),
            final(self).append_spec() == old(self).append_spec(),
            final(self).next_id_spec() == old(self).next_id_spec(),
    {
        self.message_queue.cycle(window_elapsed)
    }

    /// Asks the delivery engine to send the buffered snapshots on its next cycle.
    pub fn flush_gossip(&mut self)
        requires
            old(self).wf(),
        ensures
            final(self).wf(),
            final(self).queue_spec().flush_spec(),
            final(self).queue_spec().pending_spec() == old(self).queue_spec().pending_spec(),
            final(self).queue_spec().gossip_spec() == old(self).queue_spec().gossip_spec(),
    {
        self.message_queue.flush();
    }

    /// Queues a reply from `src` with the next message id.
    fn reply_from(&mut self, src: String, dst: String, in_reply_to: Option<usize>, payload: Payload)
        requires
            old(self).wf(),
            old(self).msg_id < usize::MAX,
            !(payload is Gossip),
        ensures
            final(self).wf(),
            final(self).msg_id == old(self).msg_id + 1,
            sent_reply(
                old(self).message_queue.pending_spec(),
                final(self).message_queue.pending_spec(),
                src@,
                dst@,
                old(self).msg_id,
                in_reply_to,
            ),
            last_payload(final(self).message_queue.pending_spec()) == payload,
            final(self).message_queue.acked_spec() == old(self).message_queue.acked_spec(),
            final(self).message_queue.gossip_spec() == old(self).message_queue.gossip_spec(),
            final(self).name == old(self).name,
            final(self).connected_to == old(self).connected_to,
            final(self).topology == old(self).topology,
            final(self).state == old(self).state,
            final(self).append == old(self).append,
            final(self).key_value_store == old(self).key_value_store,
    {
        let body = Body::new(Some(self.msg_id), in_reply_to, payload);
        let message = Message::new(src, dst, body);
        self.message_queue.add(message);
        self.msg_id = self.msg_id + 1;
        proof {
            let q = self.message_queue.pending_spec();
            assert(q.drop_last() =~= old(self).message_queue.pending_spec());
        }
    }

    /// Queues a reply from this node with the next message id.
    fn reply(&mut self, dst: String, in_reply_to: Option<usize>, payload: Payload)
        requires
            old(self).wf(),
            old(self).msg_id < usize::MAX,
            !(payload is Gossip),
        ensures
            final(self).wf(),
            final(self).msg_id == old(self).msg_id + 1,
            sent_reply(
                old(self).message_queue.pending_spec(),
                final(self).message_queue.pending_spec(),
                old(self).name@,
                dst@,
                old(self).msg_id,
                in_reply_to,
            ),
            last_payload(final(self).message_queue.pending_spec()) == payload,
            final(self).message_queue.acked_spec() == old(self).message_queue.acked_spec(),
            final(self).message_queue.gossip_spec() == old(self).message_queue.gossip_spec(),
            final(self).name == old(self).name,
            final(self).connected_to == old(self).connected_to,
            final(self).topology == old(self).topology,
            final(self).state == old(self).state,
            final(self).append == old(self).append,
            final(self).key_value_store == old(self).key_value_store,
    {
        let src = self.name.clone();
        self.reply_from(src, dst, in_reply_to, payload);
    }

    /// Records the neighbours of one node, replacing what was known of it.
    fn set_topology_entry(&mut self, key: String, nbrs: Vec<String>)
        requires
            old(self).wf(),
        ensures
            final(self).wf(),
            final(self).topology_spec() == old(self).topology_spec().insert(
                key@,
                nbrs@.map_values(|s: String| s@),
            ),
            final(self).message_queue == old(self).message_queue,
            final(self).msg_id == old(self).msg_id,
            final(self).name == old(self).name,
            final(self).connected_to == old(self).connected_to,
            final(self).state == old(self).state,
            final(self).append == old(self).append,
            final(self).key_value_store == old(self).key_value_store,
    {
        let ghost before = self.topology@;
        let ghost t = topo_view(before);
        let ghost entry = (key@, nbrs@.map_values(|s: String| s@));
        proof {
            lemma_pairs_map(t);
        }
        let mut i: usize = 0;
        let mut found: Option<usize> = None;
        while i < self.topology.len()
            invariant
                i <= self.topology.len(),
                self.topology@ == before,
                found is None ==> forall|j: int| 0 <= j < i ==> before[j].0@ != key@,
                found matches Some(k) ==> k < before.len() && before[k as int].0@ == key@,
            ensures
                self.topology@ == before,
                found is None ==> forall|j: int| 0 <= j < before.len() ==> before[j].0@ != key@,
                found matches Some(k) ==> k < before.len() && before[k as int].0@ == key@,
            decreases self.topology.len() - i,
        {
            if self.topology[i].0 == key {
                found = Some(i);
                break;
            }
            i = i + 1;
        }
        match found {
            Some(i) => {
                self.topology.set(i, (key, nbrs));
                proof {
                    let s2 = topo_view(self.topology@);
                    assert(s2 =~= t.update(i as int, entry));
                    assert forall|a: int, b: int|
                        0 <= a < s2.len() && 0 <= b < s2.len() && a != b implies s2[a].0 != s2[b].0 by {
                        assert(t[a].0 == s2[a].0);
                        assert(t[b].0 == s2[b].0);
                    }
                    lemma_pairs_map(s2);
                    assert forall|k: Seq<char>|
                        #![trigger pairs_map(s2).contains_key(k)]
                        pairs_map(s2).contains_key(k) <==> pairs_map(t).insert(entry.0, entry.1).contains_key(k) by {
                        if pairs_map(s2).contains_key(k) {
                            let j = choose|j: int| 0 <= j < s2.len() && s2[j].0 == k;
                            assert(t[j].0 == k);
                        }
                        if pairs_map(t).contains_key(k) {
                            let j = choose|j: int| 0 <= j < t.len() && t[j].0 == k;
                            assert(s2[j].0 == k);
                        }
                        if k == entry.0 {
                            assert(s2[i as int].0 == k);
                        }
                    }
                    assert forall|k: Seq<char>| #[trigger]
                        pairs_map(s2).contains_key(k) implies pairs_map(s2)[k] == pairs_map(t).insert(entry.0, entry.1)[k] by {
                        let j = choose|j: int| 0 <= j < s2.len() && s2[j].0 == k;
                        assert(pairs_map(s2)[s2[j].0] == s2[j].1);
                        if j != i {
                            assert(s2[j] == t[j]);
                            assert(t[i as int].0 == entry.0);
                            assert(t[j].0 != t[i as int].0);
                            assert(pairs_map(t)[t[j].0] == t[j].1);
                        }
                    }
                    assert(pairs_map(s2) =~= pairs_map(t).insert(entry.0, entry.1));
                }
            },
            None => {
                self.topology.push((key, nbrs));
                proof {
                    let s2 = topo_view(self.topology@);
                    assert(s2 =~= t.push(entry));
                    assert(s2.drop_last() =~= t);
                    assert forall|a: int, b: int|
                        0 <= a < s2.len() && 0 <= b < s2.len() && a != b implies s2[a].0 != s2[b].0 by {
                        if a < t.len() {
                            assert(s2[a] == t[a]);
                        }
                        if b < t.len() {
                            assert(s2[b] == t[b]);
                        }
                    }
                }
            },
        }
    }

    /// Handles one inbound message, other than a reply from the key-value
    /// service: a reply to one of this node's messages is recorded as an
    /// ack, and each request gets at most one reply, with the next message
    /// id; a change of state is relayed to the peers the sender cannot
    /// already have reached. An append starts an offset allocation, and the
    /// node then waits for the service (see `on_kv_reply`).
    pub fn step(&mut self, input: Message)
        requires
            old(self).wf(),
            old(self).can_step(),
        ensures
            final(self).wf(),
            old(self).next_id_spec() <= final(self).next_id_spec(),
            final(self).next_id_spec() <= old(self).next_id_spec() + old(self).peers_spec().len() + 1,
            fresh_ids(
                old(self).queue_spec().pending_spec(),
                final(self).queue_spec().pending_spec(),
                old(self).next_id_spec(),
                final(self).next_id_spec(),
            ),
            !(input.body.payload is Init) ==> final(self).peers_spec() == old(self).peers_spec()
                && final(self).name_spec() == old(self).name_spec() && final(self).kv_name_spec()
                == old(self).kv_name_spec(),
            !(input.body.payload is Topology) ==> final(self).topology_entries()
                == old(self).topology_entries(),
            !(input.body.payload is Send) ==> final(self).append_spec() == old(self).append_spec(),
            match input.body.in_reply_to {
                Some(r) => final(self).queue_spec().acked_spec() == old(self).queue_spec().acked_spec().insert(r),
                None => final(self).queue_spec().acked_spec() == old(self).queue_spec().acked_spec(),
            },
            ({
                let q1 = old(self).queue_spec().pending_spec();
                let q2 = final(self).queue_spec().pending_spec();
                let g1 = old(self).queue_spec().gossip_spec();
                let g2 = final(self).queue_spec().gossip_spec();
                let id = old(self).next_id_spec();
                let me = old(self).name_spec();
                let targets = fanout_targets(
                    name_set(old(self).peers_spec()),
                    old(self).topology_entries(),
                    me,
                    input.src@,
                );
                match input.body.payload {
                    Payload::Init { node_id, node_ids } => {
                        &&& final(self).name_spec() == node_id@
                        &&& final(self).peers_spec() == node_ids@
                        &&& final(self).kv_name_spec() == node_id@
                        &&& sent_reply(q1, q2, input.dst@, input.src@, id, input.body.id)
                        &&& last_payload(q2) is InitOk
                        &&& g2 == g1
                        &&& final(self).next_id_spec() == id + 1
                        &&& final(self).state_spec() == old(self).state_spec()
                    },
                    Payload::Echo { echo } => {
                        &&& sent_reply(q1, q2, me, input.src@, id, input.body.id)
                        &&& last_payload(q2) == (Payload::EchoOk { echo })
                        &&& g2 == g1
                        &&& final(self).next_id_spec() == id + 1
                        &&& final(self).state_spec() == old(self).state_spec()
                    },
                    Payload::Topology { topology } => {
                        &&& final(self).topology_spec() == topo_insert_all(
                            old(self).topology_spec(),
                            topo_view(topology@),
                        )
                        &&& sent_reply(q1, q2, me, input.src@, id, input.body.id)
                        &&& last_payload(q2) is TopologyOk
                        &&& g2 == g1
                        &&& final(self).next_id_spec() == id + 1
                        &&& final(self).state_spec() == old(self).state_spec()
                    },
                    Payload::Gossip { received_state } => {
                        let s1 = old(self).state_spec();
                        let s2 = final(self).state_spec();
                        &&& s2.key_value_store@ == received_state.key_value_store@
                        &&& s2.log@ == log_merge(s1.log@, received_state.log@)
                        &&& (record_sum(counter_merge(s1.counter@, received_state.counter@))
                            <= u64::MAX ==> s2.counter@ == counter_merge(
                            s1.counter@,
                            received_state.counter@,
                        ))
                        &&& s1.counter@.subset_of(s2.counter@)
                        &&& sent_reply(q1, q2, me, input.src@, id, input.body.id)
                        &&& last_payload(q2) is GossipOk
                        &&& final(self).next_id_spec() == id + 1 + targets.len()
                        &&& relayed(g1, g2, targets, me, s2, (id + 1) as usize, final(self).next_id_spec())
                    },
                    Payload::Send { key, msg } => {
                        &&& final(self).append_spec() matches Some(a) && a.client@ == input.src@
                            && a.request_id == input.body.id && a.msg == msg && a.allocation.key@
                            == key@ && a.allocation.phase == AllocPhase::Reading && a.kv_request
                            == id
                        &&& sent_reply(q1, q2, old(self).kv_name_spec(), "lin-kv"@, id, None)
                        &&& last_payload(q2) matches Payload::Read { key: k } && k@ == key@
                        &&& g2 == g1
                        &&& final(self).next_id_spec() == id + 1
                        &&& final(self).state_spec() == old(self).state_spec()
                    },
                    Payload::Poll { offsets } => {
                        &&& final(self).state_spec() == old(self).state_spec()
                        &&& g2 == g1
                        &&& final(self).next_id_spec() == id + 1
                        &&& sent_reply(q1, q2, me, input.src@, id, input.body.id)
                        &&& last_payload(q2) matches Payload::PollOk { msgs } && msgs@.len()
                            == offsets@.len() && forall|i: int|
                            #![trigger msgs@[i]]
                            0 <= i < msgs@.len() ==> msgs@[i].0@ == offsets@[i].0@ && keys_unique(
                                msgs@[i].1@,
                            ) && offsets_ascending(msgs@[i].1@) && pairs_map(msgs@[i].1@) == messages_from(
                                old(self).state_spec().log@.messages,
                                offsets@[i].0@,
                                offsets@[i].1,
                            )
                    },
                    Payload::CommitOffsets { offsets } => {
                        &&& final(self).state_spec().log@.committed == commit_all(
                            old(self).state_spec().log@.committed,
                            input.src@,
                            offsets@,
                        )
                        &&& final(self).state_spec().log@.messages
                            == old(self).state_spec().log@.messages
                        &&& sent_reply(q1, q2, me, input.src@, id, input.body.id)
                        &&& last_payload(q2) is CommitOffsetsOk
                        &&& final(self).next_id_spec() == id + 1 + targets.len()
                        &&& relayed(
                            g1,
                            g2,
                            targets,
                            me,
                            final(self).state_spec(),
                            (id + 1) as usize,
                            final(self).next_id_spec(),
                        )
                    },
                    Payload::ListCommittedOffsets { keys } => {
                        &&& final(self).state_spec() == old(self).state_spec()
                        &&& g2 == g1
                        &&& final(self).next_id_spec() == id + 1
                        &&& sent_reply(q1, q2, me, input.src@, id, input.body.id)
                        &&& last_payload(q2) matches Payload::ListCommittedOffsetsOk { offsets }
                            && offsets@.map_values(|p: (String, usize)| (p.0@, p.1)) == listed_offsets(
                            old(self).state_spec().log@.committed,
                            input.src@,
                            keys@.map_values(|k: String| k@),
                        )
                    },
                    Payload::Txn { txn } => {
                        &&& final(self).state_spec().key_value_store@ == txn_apply(
                            old(self).state_spec().key_value_store@,
                            txn@,
                        )
                        &&& sent_reply(q1, q2, me, input.src@, id, input.body.id)
                        &&& final(self).next_id_spec() == id + 1 + targets.len()
                        &&& last_payload(q2) matches Payload::TxnOk { txn: r } && r@ == txn_result(
                            old(self).state_spec().key_value_store@,
                            txn@,
                        )
                        &&& relayed(
                            g1,
                            g2,
                            targets,
                            me,
                            final(self).state_spec(),
                            (id + 1) as usize,
                            final(self).next_id_spec(),
                        )
                    },
                    _ => {
                        &&& q2 == q1
                        &&& g2 == g1
                        &&& final(self).next_id_spec() == id
                        &&& final(self).state_spec() == old(self).state_spec()
                    },
                }
            }),
    {
        let Message { src, dst, body } = input;
        let Body { id, in_reply_to, payload } = body;
        if let Some(reply_id) = in_reply_to {
            self.message_queue.recieved_response(reply_id);
        }
        match payload {
            Payload::Init { node_id, node_ids } => {
                self.reply_from(dst, src, id, Payload::InitOk);
                self.name = node_id.clone();
                self.connected_to = node_ids;
                self.key_value_store.set_node_name(node_id);
            },
            Payload::Echo { echo } => {
                self.reply(src, id, Payload::EchoOk { echo });
            },
            Payload::Topology { topology } => {
                let ghost m0 = self.topology_spec();
                let mut i: usize = 0;
                while i < topology.len()
                    invariant
                        i <= topology.len(),
                        self.wf(),
                        self.topology_spec() == topo_insert_all(
                            m0,
                            topo_view(topology@).subrange(0, i as int),
                        ),
                        self.message_queue.pending_spec() == old(self).message_queue.pending_spec(),
                        self.message_queue.gossip_spec() == old(self).message_queue.gossip_spec(),
                        self.message_queue.acked_spec() == (match in_reply_to {
                            Some(r) => old(self).queue_spec().acked_spec().insert(r),
                            None => old(self).queue_spec().acked_spec(),
                        }),
                        self.msg_id == old(self).msg_id,
                        self.name == old(self).name,
                        self.connected_to == old(self).connected_to,
                        self.state == old(self).state,
                        self.append == old(self).append,
                        self.key_value_store == old(self).key_value_store,
                    decreases topology.len() - i,
                {
                    let key = topology[i].0.clone();
                    let nbrs = topology[i].1.clone();
                    proof {
                        assert(nbrs@ =~= topology@[i as int].1@);
                        let tv = topo_view(topology@);
                        assert(tv.subrange(0, i + 1).drop_last() =~= tv.subrange(0, i as int));
                    }
                    self.set_topology_entry(key, nbrs);
                    i = i + 1;
                }
                proof {
                    assert(topo_view(topology@).subrange(0, topology@.len() as int) =~= topo_view(
                        topology@,
                    ));
                }
                self.reply(src, id, Payload::TopologyOk);
            },
            Payload::Gossip { received_state } => {
                self.state.sync(&received_state);
                self.reply(src.clone(), id, Payload::GossipOk);
                self.gossip(&src);
            },
            Payload::Send { key, msg } => {
                let alloc = OffsetAllocation::new(key.clone());
                let kv_id = self.msg_id;
                let request = self.key_value_store.get(key, kv_id);
                self.message_queue.add(request);
                self.msg_id = self.msg_id + 1;
                self.append = Some(
                    PendingAppend { client: src, request_id: id, msg, allocation: alloc, kv_request: kv_id },
                );
                proof {
                    let q = self.message_queue.pending_spec();
                    assert(q.drop_last() =~= old(self).message_queue.pending_spec());
                }
            },
            Payload::Poll { offsets } => {
                let msgs = self.state.log.poll(&offsets);
                self.reply(src, id, Payload::PollOk { msgs });
            },
            Payload::CommitOffsets { offsets } => {
                self.state.log.commit_offsets(&src, &offsets);
                self.reply(src.clone(), id, Payload::CommitOffsetsOk);
                self.gossip(&src);
            },
            Payload::ListCommittedOffsets { keys } => {
                let offsets = self.state.log.get_offsets(&src, &keys);
                self.reply(src, id, Payload::ListCommittedOffsetsOk { offsets });
            },
            Payload::Txn { txn } => {
                let result = self.state.process_transaction(txn);
                self.reply(src.clone(), id, Payload::TxnOk { txn: result });
                self.gossip(&src);
            },
            _ => {},
        }
    }

    /// Handles a reply from the key-value service to the waiting append. A
    /// reply to any other request changes nothing. Otherwise the allocation
    /// takes the reply: while it has no offset yet its next request is sent;
    /// once it has one, the value is written at that offset of the log, the
    /// client is answered with the offset, and the state is relayed to the
    /// peers the client cannot have reached. An offset that already holds a
    /// value in this node's log is never acknowledged: the allocation starts
    /// over with a read.
    pub fn on_kv_reply(&mut self, reply: Message)
        requires
            old(self).wf(),
            old(self).append_spec() is Some,
            old(self).next_id_spec() + old(self).peers_spec().len() + 2 <= usize::MAX,
        ensures
            final(self).wf(),
            old(self).next_id_spec() <= final(self).next_id_spec(),
            final(self).next_id_spec() <= old(self).next_id_spec() + old(self).peers_spec().len() + 1,
            fresh_ids(
                old(self).queue_spec().pending_spec(),
                final(self).queue_spec().pending_spec(),
                old(self).next_id_spec(),
                final(self).next_id_spec(),
            ),
            final(self).peers_spec() == old(self).peers_spec(),
            final(self).name_spec() == old(self).name_spec(),
            final(self).kv_name_spec() == old(self).kv_name_spec(),
            final(self).topology_entries() == old(self).topology_entries(),
            final(self).queue_spec().acked_spec() == old(self).queue_spec().acked_spec(),
            ({
                let a = old(self).append_spec()->0;
                let q1 = old(self).queue_spec().pending_spec();
                let q2 = final(self).queue_spec().pending_spec();
                let g1 = old(self).queue_spec().gossip_spec();
                let g2 = final(self).queue_spec().gossip_spec();
                let id = old(self).next_id_spec();
                let me = old(self).name_spec();
                let decoded = match a.allocation.phase {
                    AllocPhase::Swapping { .. } => cas_reply(reply.body.payload),
                    _ => read_reply(reply.body.payload),
                };
                let (ph, out) = alloc_next(a.allocation.phase, decoded);
                if reply.body.in_reply_to != Some(a.kv_request) {
                    *final(self) == *old(self)
                } else {
                    match out {
                        None => {
                            &&& final(self).append_spec() matches Some(b) && b.client == a.client
                                && b.request_id == a.request_id && b.msg == a.msg
                                && b.allocation.key == a.allocation.key && b.allocation.phase == ph
                                && b.kv_request == id
                            &&& sent_reply(q1, q2, old(self).kv_name_spec(), "lin-kv"@, id, None)
                            &&& last_payload(q2) == match phase_op(ph) {
                                crate::link_kv::KvOp::Read => Payload::Read { key: a.allocation.key },
                                crate::link_kv::KvOp::Write { value } => Payload::Write {
                                    key: a.allocation.key,
                                    value,
                                },
                                crate::link_kv::KvOp::Cas { from, to } => Payload::Cas {
                                    key: a.allocation.key,
                                    from,
                                    to,
                                },
                            }
                            &&& final(self).state_spec() == old(self).state_spec()
                            &&& g2 == g1
                            &&& final(self).next_id_spec() == id + 1
                        },
                        Some(offset) => if old(self).state_spec().log@.messages.contains_key(
                            (a.allocation.key@, offset),
                        ) {
                            &&& final(self).append_spec() matches Some(b) && b.client == a.client
                                && b.request_id == a.request_id && b.msg == a.msg
                                && b.allocation.key == a.allocation.key && b.allocation.phase
                                == AllocPhase::Reading && b.kv_request == id
                            &&& sent_reply(q1, q2, old(self).kv_name_spec(), "lin-kv"@, id, None)
                            &&& last_payload(q2) == (Payload::Read { key: a.allocation.key })
                            &&& final(self).state_spec().log@ == old(self).state_spec().log@
                            &&& final(self).state_spec().counter == old(self).state_spec().counter
                            &&& final(self).state_spec().key_value_store
                                == old(self).state_spec().key_value_store
                            &&& g2 == g1
                            &&& final(self).next_id_spec() == id + 1
                        } else {
                            &&& final(self).append_spec() is None
                            &&& final(self).state_spec().log@.messages == old(self).state_spec().log@.messages.insert(
                                (a.allocation.key@, offset),
                                a.msg,
                            )
                            &&& final(self).state_spec().log@.committed
                                == old(self).state_spec().log@.committed
                            &&& sent_reply(q1, q2, me, a.client@, id, a.request_id)
                            &&& last_payload(q2) == (Payload::SendOk { offset })
                            &&& final(self).next_id_spec() == id + 1 + fanout_targets(
                                name_set(old(self).peers_spec()),
                                old(self).topology_entries(),
                                me,
                                a.client@,
                            ).len()
                            &&& relayed(
                                g1,
                                g2,
                                fanout_targets(
                                    name_set(old(self).peers_spec()),
                                    old(self).topology_entries(),
                                    me,
                                    a.client@,
                                ),
                                me,
                                final(self).state_spec(),
                                (id + 1) as usize,
                                final(self).next_id_spec(),
                            )
                        },
                    }
                }
            }),
    {
        let expected = match &self.append {
            Some(a) => a.kv_request,
            None => 0,
        };
        let answers = match reply.body.in_reply_to {
            Some(r) => r == expected,
            None => false,
        };
        if !answers {
            return;
        }
        let mut slot: Option<PendingAppend> = None;
        std::mem::swap(&mut self.append, &mut slot);
        let PendingAppend { client, request_id, msg, mut allocation, kv_request: _ } = match slot {
            Some(a) => a,
            None => {
                return;
            },
        };
        let out = allocation.on_payload(&reply.body.payload);
        match out {
            None => {
                let op = allocation.next_op();
                let kv_id = self.msg_id;
                let request = self.key_value_store.op_request(&allocation.key, op, kv_id);
                self.message_queue.add(request);
                self.msg_id = self.msg_id + 1;
                self.append = Some(
                    PendingAppend { client, request_id, msg, allocation, kv_request: kv_id },
                );
                proof {
                    let q = self.message_queue.pending_spec();
                    assert(q.drop_last() =~= old(self).message_queue.pending_spec());
                }
            },
            Some(offset) => {
                let written = self.state.log.add_message(&allocation.key, offset, msg);
                if written {
                    self.reply(client.clone(), request_id, Payload::SendOk { offset });
                    self.gossip(&client);
                } else {
                    // The offset already holds a value here: two allocators both found
                    // the counter key missing and both took 0. Allocate again; the
                    // counter now holds a value, so the retry goes through a swap.
                    proof {
                        assert(self.state.log@.messages =~= old(self).state.log@.messages);
                    }
                    let retry = OffsetAllocation::new(allocation.key);
                    let kv_id = self.msg_id;
                    let request = self.key_value_store.get(retry.key.clone(), kv_id);
                    self.message_queue.add(request);
                    self.msg_id = self.msg_id + 1;
                    self.append = Some(
                        PendingAppend { client, request_id, msg, allocation: retry, kv_request: kv_id },
                    );
                    proof {
                        let q = self.message_queue.pending_spec();
                        assert(q.drop_last() =~= old(self).message_queue.pending_spec());
                    }
                }
            },
        }
    }

    /// The peers to relay a change to when it was triggered by `parrent`:
    /// those other than this node that no walk along the topology leads to
    /// from `parrent` without passing through this node; each listed once.
    pub fn nodes_not_reachable_from_parrent(&self, parrent: &String) -> (r: Vec<String>)
        ensures
            name_set(r@) == fanout_targets(
                name_set(self.peers_spec()),
                self.topology_entries(),
                self.name_spec(),
                parrent@,
            ),
            forall|i: int, j: int| 0 <= i < r@.len() && 0 <= j < r@.len() && i != j ==> r@[i]@ != r@[j]@,
    {
        unreached_peers(&self.connected_to, &self.topology, &self.name, parrent)
    }

    /// Relays a snapshot of the state to every peer that the triggering
    /// sender `from` cannot already have reached through the topology.
    fn gossip(&mut self, from: &String)
        requires
            old(self).wf(),
            old(self).msg_id + old(self).connected_to@.len() <= usize::MAX,
        ensures
            final(self).wf(),
            final(self).msg_id <= old(self).msg_id + old(self).connected_to@.len(),
            final(self).msg_id == old(self).msg_id + fanout_targets(
                name_set(old(self).connected_to@),
                topo_view(old(self).topology@),
                old(self).name@,
                from@,
            ).len(),
            relayed(
                old(self).message_queue.gossip_spec(),
                final(self).message_queue.gossip_spec(),
                fanout_targets(
                    name_set(old(self).connected_to@),
                    topo_view(old(self).topology@),
                    old(self).name@,
                    from@,
                ),
                old(self).name@,
                old(self).state,
                old(self).msg_id,
                final(self).msg_id,
            ),
            final(self).message_queue.pending_spec() == old(self).message_queue.pending_spec(),
            final(self).message_queue.acked_spec() == old(self).message_queue.acked_spec(),
            final(self).name == old(self).name,
            final(self).connected_to == old(self).connected_to,
            final(self).topology == old(self).topology,
            final(self).state == old(self).state,
            final(self).append == old(self).append,
            final(self).key_value_store == old(self).key_value_store,
    {
        let nodes = self.nodes_not_reachable_from_parrent(from);
        let ghost targets = name_set(nodes@);
        let ghost g0 = self.message_queue.gossip_spec();
        proof {
            lemma_unique_len(nodes@, self.connected_to@, self.name@);
            lemma_distinct_names_len(nodes@);
            assert(name_set(nodes@.subrange(0, 0)) =~= Set::<Seq<char>>::empty());
            assert(g0.dom() + Set::<Seq<char>>::empty() =~= g0.dom());
        }
        let mut k: usize = 0;
        while k < nodes.len()
            invariant
                k <= nodes.len(),
                nodes@.len() <= old(self).connected_to@.len(),
                self.wf(),
                self.msg_id == old(self).msg_id + k,
                old(self).msg_id + old(self).connected_to@.len() <= usize::MAX,
                forall|i: int, j: int|
                    0 <= i < nodes@.len() && 0 <= j < nodes@.len() && i != j ==> nodes@[i]@
                        != nodes@[j]@,
                relayed(
                    g0,
                    self.message_queue.gossip_spec(),
                    name_set(nodes@.subrange(0, k as int)),
                    old(self).name@,
                    old(self).state,
                    old(self).msg_id,
                    self.msg_id,
                ),
                g0 == old(self).message_queue.gossip_spec(),
                self.message_queue.pending_spec() == old(self).message_queue.pending_spec(),
                self.message_queue.acked_spec() == old(self).message_queue.acked_spec(),
                self.name == old(self).name,
                self.connected_to == old(self).connected_to,
                self.topology == old(self).topology,
                self.state == old(self).state,
                self.append == old(self).append,
                self.key_value_store == old(self).key_value_store,
            decreases nodes.len() - k,
        {
            let ghost g1 = self.message_queue.gossip_spec();
            let snapshot = self.state.duplicate();
            let body = Body::new(Some(self.msg_id), None, Payload::Gossip { received_state: snapshot });
            let message = Message::new(self.name.clone(), nodes[k].clone(), body);
            self.message_queue.add(message);
            self.msg_id = self.msg_id + 1;
            proof {
                let pre = name_set(nodes@.subrange(0, k as int));
                let post = name_set(nodes@.subrange(0, k + 1));
                let d = nodes@[k as int]@;
                assert(post =~= pre.insert(d)) by {
                    assert forall|x: Seq<char>| post.contains(x) <==> pre.insert(d).contains(x) by {
                        if post.contains(x) {
                            let w = choose|w: int|
                                0 <= w < k + 1 && (#[trigger] nodes@.subrange(0, k + 1)[w])@ == x;
                            if w < k {
                                assert(nodes@.subrange(0, k as int)[w] == nodes@[w]);
                            }
                        }
                        if pre.contains(x) {
                            let w = choose|w: int|
                                0 <= w < k && (#[trigger] nodes@.subrange(0, k as int)[w])@ == x;
                            assert(nodes@.subrange(0, k + 1)[w] == nodes@[w]);
                        }
                        if x == d {
                            assert(nodes@.subrange(0, k + 1)[k as int] == nodes@[k as int]);
                        }
                    }
                }
                assert(!pre.contains(d)) by {
                    if pre.contains(d) {
                        let w = choose|w: int|
                            0 <= w < k && (#[trigger] nodes@.subrange(0, k as int)[w])@ == d;
                        assert(nodes@.subrange(0, k as int)[w] == nodes@[w]);
                    }
                }
                assert(self.message_queue.gossip_spec().dom() =~= g0.dom() + post);
                let g2 = self.message_queue.gossip_spec();
                assert forall|d1: Seq<char>, d2: Seq<char>|
                    post.contains(d1) && post.contains(d2) && d1 != d2 implies g2[d1].body.id
                    != g2[d2].body.id by {
                    if d1 != d && d2 != d {
                        assert(pre.contains(d1) && pre.contains(d2));
                    } else if d1 == d {
                        assert(pre.contains(d2));
                    } else {
                        assert(pre.contains(d1));
                    }
                }
            }
            k = k + 1;
        }
        proof {
            assert(nodes@.subrange(0, nodes@.len() as int) =~= nodes@);
        }
    }
}

/// A list of distinct names holds as many names as it has entries.
proof fn lemma_distinct_names_len(r: Seq<String>)
    requires
        forall|i: int, j: int| 0 <= i < r.len() && 0 <= j < r.len() && i != j ==> r[i]@ != r[j]@,
    ensures
        name_set(r).len() == r.len(),
        name_set(r).finite(),
{
    let rv = r.map_values(|s: String| s@);
    assert(rv.no_duplicates()) by {
        assert forall|i: int, j: int| 0 <= i < rv.len() && 0 <= j < rv.len() && i != j implies rv[i]
            != rv[j] by {
            assert(rv[i] == r[i]@ && rv[j] == r[j]@);
        }
    }
    assert forall|x: Seq<char>| name_set(r).contains(x) <==> rv.to_set().contains(x) by {
        if name_set(r).contains(x) {
            let i = choose|i: int| 0 <= i < r.len() && (#[trigger] r[i])@ == x;
            assert(rv[i] == x);
        }
        if rv.to_set().contains(x) {
            let i = choose|i: int| 0 <= i < rv.len() && rv[i] == x;
            assert(r[i]@ == x);
        }
    }
    assert(name_set(r) =~= rv.to_set());
    rv.unique_seq_to_set();
    vstd::seq_lib::seq_to_set_is_finite(rv);
}

/// A list of distinct names drawn from `peers`, leaving out `me`, is no
/// longer than `peers`.
proof fn lemma_unique_len(r: Seq<String>, peers: Seq<String>, me: Seq<char>)
    requires
        forall|i: int, j: int| 0 <= i < r.len() && 0 <= j < r.len() && i != j ==> r[i]@ != r[j]@,
        forall|x: Seq<char>| name_set(r).contains(x) ==> name_set(peers).contains(x),
    ensures
        r.len() <= peers.len(),
{
    let rv = r.map_values(|s: String| s@);
    let pv = peers.map_values(|s: String| s@);
    assert(rv.no_duplicates()) by {
        assert forall|i: int, j: int| 0 <= i < rv.len() && 0 <= j < rv.len() && i != j implies rv[i]
            != rv[j] by {
            assert(rv[i] == r[i]@ && rv[j] == r[j]@);
        }
    }
    assert(rv.to_set().subset_of(pv.to_set())) by {
        assert forall|x: Seq<char>| rv.to_set().contains(x) implies pv.to_set().contains(x) by {
            let i = choose|i: int| 0 <= i < rv.len() && rv[i] == x;
            assert(name_set(r).contains(r[i]@));
            let j = choose|j: int| 0 <= j < peers.len() && (#[trigger] peers[j])@ == x;
            assert(pv[j] == x);
        }
    }
    rv.unique_seq_to_set();
    pv.lemma_cardinality_of_set();
    vstd::set_lib::lemma_len_subset(rv.to_set(), pv.to_set());
}

} // verus!
