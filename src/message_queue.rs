use std::rc::Rc;
use vstd::prelude::*;

use crate::log::{keys_unique, lemma_pairs_map, pairs_map};
use crate::message::{Message, Payload};

verus! {

/// How hard the engine tries to deliver a message.
#[derive(Debug, Clone, Copy, PartialEq, Eq, Structural)]
pub enum Durability {
    /// Sent once.
    BestEffort,
    /// Sent on every cycle until a reply to its id arrives.
    UntilAcked,
}

/// A send request held by the engine.
#[derive(Debug)]
pub struct PendingSend {
    pub message: Rc<Message>,
    pub durability: Durability,
}

pub open spec fn is_gossip(m: Message) -> bool {
    m.body.payload is Gossip
}

/// One drain of the pending sends, in order: a send whose id has been acked is
/// dropped and its ack consumed; every other send is transmitted, and kept
/// for the next cycle when it is sent until acked. Yields what is
/// transmitted, what is kept, and the acks left.
pub open spec fn drain(pending: Seq<PendingSend>, acked: Set<usize>) -> (
    Seq<Rc<Message>>,
    Seq<PendingSend>,
    Set<usize>,
)
    decreases pending.len(),
{
    if pending.len() == 0 {
        (Seq::empty(), Seq::empty(), acked)
    } else {
        let prev = drain(pending.drop_last(), acked);
        let p = pending.last();
        match p.message.body.id {
            Some(x) if prev.2.contains(x) => (prev.0, prev.1, prev.2.remove(x)),
            _ => (
                prev.0.push(p.message),
                if p.durability == Durability::UntilAcked {
                    prev.1.push(p)
                } else {
                    prev.1
                },
                prev.2,
            ),
        }
    }
}

/// The gossip buffer as a map from destination to the latest snapshot for it.
pub open spec fn gossip_map(buf: Seq<Rc<Message>>) -> Map<Seq<char>, Rc<Message>> {
    pairs_map(buf.map_values(|m: Rc<Message>| (m.dst@, m)))
}

pub open spec fn gossip_unique(buf: Seq<Rc<Message>>) -> bool {
    keys_unique(buf.map_values(|m: Rc<Message>| (m.dst@, m)))
}

/// The reliable delivery engine: pending sends in order, the ack table, the
/// gossip buffer, and whether a flush of the buffer was asked for.
#[derive(Debug)]
pub struct MessageQueue {
    pending: Vec<PendingSend>,
    acked: Vec<usize>,
    gossip: Vec<Rc<Message>>,
    flush_requested: bool,
}

impl MessageQueue {
    pub closed spec fn pending_spec(&self) -> Seq<PendingSend> {
        self.pending@
    }

    pub closed spec fn acked_spec(&self) -> Set<usize> {
        self.acked@.to_set()
    }

    pub closed spec fn gossip_spec(&self) -> Map<Seq<char>, Rc<Message>> {
        gossip_map(self.gossip@)
    }

    pub closed spec fn flush_spec(&self) -> bool {
        self.flush_requested
    }

    pub closed spec fn wf(&self) -> bool {
        gossip_unique(self.gossip@)
    }

    pub fn new() -> (r: MessageQueue)
        ensures
            r.wf(),
            r.pending_spec() == Seq::<PendingSend>::empty(),
            r.acked_spec() == Set::<usize>::empty(),
            r.gossip_spec() == Map::<Seq<char>, Rc<Message>>::empty(),
            !r.flush_spec(),
    {
        let r = MessageQueue {
            pending: Vec::new(),
            acked: Vec::new(),
            gossip: Vec::new(),
            flush_requested: false,
        };
        proof {
            assert(r.acked@.to_set() =~= Set::<usize>::empty());
        }
        r
    }

    /// Number of sends waiting for the next cycle.
    pub fn pending_len(&self) -> (r: usize)
        ensures
            r == self.pending_spec().len(),
    {
        self.pending.len()
    }

    /// Number of destinations with a buffered snapshot.
    pub fn gossip_len(&self) -> (r: usize)
        requires
            self.wf(),
        ensures
            r == self.gossip_spec().len(),
    {
        proof {
            self.lemma_gossip_len();
        }
        self.gossip.len()
    }

    proof fn lemma_gossip_len(&self)
        requires
            self.wf(),
        ensures
            self.gossip_spec().len() == self.gossip@.len(),
    {
        let s = self.gossip@.map_values(|m: Rc<Message>| (m.dst@, m));
        lemma_pairs_len(s);
    }

    fn push_gossip(&mut self, message: Rc<Message>)
        requires
            old(self).wf(),
        ensures
            final(self).wf(),
            final(self).gossip_spec() == old(self).gossip_spec().insert(message.dst@, message),
            final(self).pending_spec() == old(self).pending_spec(),
            final(self).acked_spec() == old(self).acked_spec(),
            final(self).flush_spec() == old(self).flush_spec(),
    {
        let ghost before = self.gossip@;
        let ghost f = |m: Rc<Message>| (m.dst@, m);
        proof {
            lemma_pairs_map(before.map_values(f));
        }
        let mut i: usize = 0;
        let mut found: Option<usize> = None;
        while i < self.gossip.len()
            invariant
                i <= self.gossip.len(),
                self.gossip@ == before,
                found is None ==> forall|j: int| 0 <= j < i ==> self.gossip@[j].dst@ != message.dst@,
                found matches Some(k) ==> k < before.len() && before[k as int].dst@ == message.dst@,
            ensures
                self.gossip@ == before,
                found is None ==> forall|j: int|
                    0 <= j < before.len() ==> before[j].dst@ != message.dst@,
                found matches Some(k) ==> k < before.len() && before[k as int].dst@ == message.dst@,
            decreases self.gossip.len() - i,
        {
            if self.gossip[i].dst == message.dst {
                found = Some(i);
                break;
            }
            i = i + 1;
        }
        if let Some(i) = found {
            self.gossip.set(i, message);
            proof {
                let s = self.gossip@.map_values(f);
                let t = before.map_values(f);
                assert(self.gossip@ =~= before.update(i as int, message));
                assert(s =~= t.update(i as int, (message.dst@, message)));
                assert forall|a: int, b: int| 0 <= a < s.len() && 0 <= b < s.len() && a != b implies s[a].0
                    != s[b].0 by {
                    assert(t[a].0 == s[a].0);
                    assert(t[b].0 == s[b].0);
                }
                lemma_pairs_map(s);
                assert forall|k: Seq<char>|
                    #![trigger pairs_map(s).contains_key(k)]
                    pairs_map(s).contains_key(k) <==> gossip_map(before).insert(
                        message.dst@,
                        message,
                    ).contains_key(k) by {
                    if pairs_map(s).contains_key(k) {
                        let j = choose|j: int| 0 <= j < s.len() && s[j].0 == k;
                        assert(t[j].0 == k);
                    }
                    if gossip_map(before).contains_key(k) {
                        let j = choose|j: int| 0 <= j < t.len() && t[j].0 == k;
                        assert(s[j].0 == k);
                    }
                    if k == message.dst@ {
                        assert(s[i as int].0 == k);
                    }
                }
                assert forall|k: Seq<char>| #[trigger]
                    pairs_map(s).contains_key(k) implies pairs_map(s)[k] == gossip_map(
                    before,
                ).insert(message.dst@, message)[k] by {
                    let j = choose|j: int| 0 <= j < s.len() && s[j].0 == k;
                    lemma_pairs_map(t);
                    if j != i {
                        assert(s[j] == t[j]);
                        assert(t[i as int].0 == message.dst@);
                        assert(t[j].0 != t[i as int].0);
                        assert(pairs_map(s)[s[j].0] == s[j].1);
                        assert(pairs_map(t)[t[j].0] == t[j].1);
                    } else {
                        assert(pairs_map(s)[s[j].0] == s[j].1);
                    }
                }
                assert(pairs_map(s) =~= gossip_map(before).insert(message.dst@, message));
            }
            return;
        }
        self.gossip.push(message);
        proof {
            let s = self.gossip@.map_values(f);
            assert(s =~= before.map_values(f).push((message.dst@, message)));
            assert(s.drop_last() =~= before.map_values(f));
            assert forall|a: int, b: int| 0 <= a < s.len() && 0 <= b < s.len() && a != b implies s[a].0
                != s[b].0 by {
                if a < before.len() {
                    assert(s[a] == before.map_values(f)[a]);
                }
                if b < before.len() {
                    assert(s[b] == before.map_values(f)[b]);
                }
            }
        }
    }

    /// Queues a message to be sent once. A gossip snapshot goes to the gossip
    /// buffer instead, replacing any snapshot already buffered for the same
    /// destination.
    pub fn add(&mut self, message: Message)
        requires
            old(self).wf(),
        ensures
            final(self).wf(),
            final(self).acked_spec() == old(self).acked_spec(),
            final(self).flush_spec() == old(self).flush_spec(),
            is_gossip(message) ==> final(self).gossip_spec() == old(self).gossip_spec().insert(
                message.dst@,
                Rc::new(message),
            ) && final(self).pending_spec() == old(self).pending_spec(),
            !is_gossip(message) ==> final(self).pending_spec() == old(self).pending_spec().push(
                PendingSend { message: Rc::new(message), durability: Durability::BestEffort },
            ) && final(self).gossip_spec() == old(self).gossip_spec(),
    {
        let gossip = match message.body.payload {
            Payload::Gossip { .. } => true,
            _ => false,
        };
        if gossip {
            self.push_gossip(Rc::new(message));
        } else {
            self.pending.push(
                PendingSend { message: Rc::new(message), durability: Durability::BestEffort },
            );
        }
    }

    /// Queues a message to be sent on every cycle until a reply to its id
    /// arrives.
    pub fn add_and_check(&mut self, message: Message)
        requires
            old(self).wf(),
        ensures
            final(self).wf(),
            final(self).pending_spec() == old(self).pending_spec().push(
                PendingSend { message: Rc::new(message), durability: Durability::UntilAcked },
            ),
            final(self).acked_spec() == old(self).acked_spec(),
            final(self).gossip_spec() == old(self).gossip_spec(),
            final(self).flush_spec() == old(self).flush_spec(),
    {
        self.pending.push(PendingSend { message: Rc::new(message), durability: Durability::UntilAcked });
    }

    /// Records that a reply to message `msg_id` arrived.
    pub fn recieved_response(&mut self, msg_id: usize)
        requires
            old(self).wf(),
        ensures
            final(self).wf(),
            final(self).acked_spec() == old(self).acked_spec().insert(msg_id),
            final(self).pending_spec() == old(self).pending_spec(),
            final(self).gossip_spec() == old(self).gossip_spec(),
            final(self).flush_spec() == old(self).flush_spec(),
    {
        let ghost before = self.acked@;
        self.acked.push(msg_id);
        proof {
            before.lemma_push_to_set_commute(msg_id);
        }
    }

    /// Asks that the gossip buffer be sent on the next cycle, whether or not
    /// the coalescing window has passed.
    pub fn flush(&mut self)
        requires
            old(self).wf(),
        ensures
            final(self).wf(),
            final(self).flush_spec(),
            final(self).pending_spec() == old(self).pending_spec(),
            final(self).acked_spec() == old(self).acked_spec(),
            final(self).gossip_spec() == old(self).gossip_spec(),
    {
        self.flush_requested = true;
    }

    fn remove_ack(&mut self, x: usize)
        requires
            old(self).wf(),
        ensures
            final(self).wf(),
            final(self).gossip@ == old(self).gossip@,
            final(self).pending@ == old(self).pending@,
            final(self).acked_spec() == old(self).acked_spec().remove(x),
            final(self).pending_spec() == old(self).pending_spec(),
            final(self).gossip_spec() == old(self).gossip_spec(),
            final(self).flush_spec() == old(self).flush_spec(),
    {
        let mut kept: Vec<usize> = Vec::new();
        let mut i: usize = 0;
        while i < self.acked.len()
            invariant
                i <= self.acked.len(),
                kept@.to_set() == self.acked@.subrange(0, i as int).to_set().remove(x),
            decreases self.acked.len() - i,
        {
            let a = self.acked[i];
            let ghost k0 = kept@;
            proof {
                assert(self.acked@.subrange(0, i + 1) =~= self.acked@.subrange(0, i as int).push(a));
                self.acked@.subrange(0, i as int).lemma_push_to_set_commute(a);
            }
            if a != x {
                kept.push(a);
                proof {
                    k0.lemma_push_to_set_commute(a);
                    assert(kept@.to_set() =~= self.acked@.subrange(0, i + 1).to_set().remove(x));
                }
            } else {
                proof {
                    assert(kept@.to_set() =~= self.acked@.subrange(0, i + 1).to_set().remove(x));
                }
            }
            i = i + 1;
        }
        proof {
            assert(self.acked@.subrange(0, self.acked@.len() as int) =~= self.acked@);
        }
        self.acked = kept;
    }

    fn is_acked(&self, x: usize) -> (r: bool)
        ensures
            r == self.acked_spec().contains(x),
    {
        let mut i: usize = 0;
        while i < self.acked.len()
            invariant
                i <= self.acked.len(),
                forall|j: int| 0 <= j < i ==> self.acked@[j] != x,
            decreases self.acked.len() - i,
        {
            if self.acked[i] == x {
                assert(self.acked@.to_set().contains(self.acked@[i as int]));
                return true;
            }
            i = i + 1;
        }
        false
    }

    /// One delivery cycle. First every pending send, in order: one whose id
    /// has been acked is dropped and its ack consumed; every other is
    /// transmitted, and kept for the next cycle when it is sent until acked.
    /// Then, when the coalescing window has passed or a flush was asked for,
    /// the buffered snapshots, one per destination, and the buffer is cleared.
    pub fn cycle(&mut self, window_elapsed: bool) -> (out: Vec<Rc<Message>>)
        requires
            old(self).wf(),
        ensures
            final(self).wf(),
            ({
                let d = drain(old(self).pending_spec(), old(self).acked_spec());
                &&& d.0.len() <= out@.len()
                &&& out@.subrange(0, d.0.len() as int) == d.0
                &&& final(self).pending_spec() == d.1
                &&& final(self).acked_spec() == d.2
                &&& if window_elapsed || old(self).flush_spec() {
                    &&& gossip_unique(out@.subrange(d.0.len() as int, out@.len() as int))
                    &&& gossip_map(out@.subrange(d.0.len() as int, out@.len() as int))
                        == old(self).gossip_spec()
                    &&& final(self).gossip_spec() == Map::<Seq<char>, Rc<Message>>::empty()
                    &&& !final(self).flush_spec()
                } else {
                    &&& out@.len() == d.0.len()
                    &&& final(self).gossip_spec() == old(self).gossip_spec()
                    &&& final(self).flush_spec() == old(self).flush_spec()
                }
            }),
    {
        let ghost pending0 = self.pending@;
        let ghost acked0 = self.acked@.to_set();
        let mut out: Vec<Rc<Message>> = Vec::new();
        let mut keep: Vec<PendingSend> = Vec::new();
        let mut i: usize = 0;
        while i < self.pending.len()
            invariant
                i <= self.pending.len(),
                self.wf(),
                self.pending@ == pending0,
                ({
                    let d = drain(pending0.subrange(0, i as int), acked0);
                    &&& out@ == d.0
                    &&& keep@ == d.1
                    &&& self.acked_spec() == d.2
                }),
                self.gossip@ == old(self).gossip@,
                self.flush_requested == old(self).flush_requested,
            decreases self.pending.len() - i,
        {
            let p = &self.pending[i];
            proof {
                assert(pending0.subrange(0, i + 1).drop_last() =~= pending0.subrange(0, i as int));
            }
            let message = Rc::clone(&p.message);
            let durability = p.durability;
            let dropped = match message.body.id {
                Some(x) => {
                    if self.is_acked(x) {
                        self.remove_ack(x);
                        true
                    } else {
                        false
                    }
                },
                None => false,
            };
            if !dropped {
                let keep_it = durability == Durability::UntilAcked;
                if keep_it {
                    keep.push(PendingSend { message: Rc::clone(&message), durability });
                }
                out.push(message);
            }
            i = i + 1;
        }
        proof {
            assert(pending0.subrange(0, pending0.len() as int) =~= pending0);
        }
        self.pending = keep;
        let ghost drained = out@;
        if window_elapsed || self.flush_requested {
            let ghost buf = self.gossip@;
            let mut k: usize = 0;
            while k < self.gossip.len()
                invariant
                    k <= self.gossip.len(),
                    self.gossip@ == buf,
                    out@ == drained + buf.subrange(0, k as int),
                decreases self.gossip.len() - k,
            {
                out.push(Rc::clone(&self.gossip[k]));
                proof {
                    assert(buf.subrange(0, k + 1) =~= buf.subrange(0, k as int).push(buf[k as int]));
                }
                k = k + 1;
            }
            proof {
                assert(out@.subrange(0, drained.len() as int) =~= drained);
                assert(out@.subrange(drained.len() as int, out@.len() as int) =~= buf);
            }
            self.gossip = Vec::new();
            self.flush_requested = false;
            proof {
                assert(gossip_map(self.gossip@) =~= Map::<Seq<char>, Rc<Message>>::empty());
            }
        } else {
            proof {
                assert(out@.subrange(0, drained.len() as int) =~= drained);
            }
        }
        out
    }
}

impl Default for MessageQueue {
    fn default() -> (r: MessageQueue)
        ensures
            r.wf(),
            r.pending_spec() == Seq::<PendingSend>::empty(),
            r.acked_spec() == Set::<usize>::empty(),
            r.gossip_spec() == Map::<Seq<char>, Rc<Message>>::empty(),
            !r.flush_spec(),
    {
        MessageQueue::new()
    }
}

/// Gossip coalescing: after three snapshots for one destination are queued,
/// the buffer holds one message for it, the last one; and a flush that sends
/// the buffer, one message per destination, sends exactly one to it.
pub proof fn lemma_gossip_coalesces(
    buf: Map<Seq<char>, Rc<Message>>,
    m1: Rc<Message>,
    m2: Rc<Message>,
    m3: Rc<Message>,
    sent: Seq<Rc<Message>>,
)
    requires
        m1.dst@ == m3.dst@,
        m2.dst@ == m3.dst@,
        gossip_unique(sent),
        gossip_map(sent) == buf.insert(m1.dst@, m1).insert(m2.dst@, m2).insert(m3.dst@, m3),
    ensures
        buf.insert(m1.dst@, m1).insert(m2.dst@, m2).insert(m3.dst@, m3) == buf.insert(m3.dst@, m3),
        exists|i: int| 0 <= i < sent.len() && sent[i] == m3,
        forall|i: int, j: int|
            0 <= i < sent.len() && 0 <= j < sent.len() && sent[i].dst@ == m3.dst@ && sent[j].dst@
                == m3.dst@ ==> i == j && sent[i] == m3,
{
    let d = m3.dst@;
    assert(buf.insert(d, m1).insert(d, m2).insert(d, m3) =~= buf.insert(d, m3));
    let s = sent.map_values(|m: Rc<Message>| (m.dst@, m));
    lemma_pairs_map(s);
    assert(pairs_map(s).contains_key(d));
    let i = choose|i: int| 0 <= i < s.len() && s[i].0 == d;
    assert(pairs_map(s)[s[i].0] == s[i].1);
    assert(sent[i] == m3);
    assert forall|a: int, b: int|
        0 <= a < sent.len() && 0 <= b < sent.len() && sent[a].dst@ == d && sent[b].dst@ == d implies a
        == b && sent[a] == m3 by {
        assert(s[a].0 == d && s[b].0 == d);
        assert(pairs_map(s)[s[a].0] == s[a].1);
    }
}

/// The acks left after a drain are among those before it.
proof fn lemma_drain_acks_shrink(pending: Seq<PendingSend>, acked: Set<usize>)
    ensures
        drain(pending, acked).2.subset_of(acked),
    decreases pending.len(),
{
    if pending.len() > 0 {
        lemma_drain_acks_shrink(pending.drop_last(), acked);
    }
}

/// A drain over sends none of which carries id `x` leaves an ack for `x`
/// as it was and transmits or keeps nothing with that id.
proof fn lemma_drain_untouched(pending: Seq<PendingSend>, acked: Set<usize>, x: usize)
    requires
        forall|j: int| 0 <= j < pending.len() ==> pending[j].message.body.id != Some(x),
    ensures
        drain(pending, acked).2.contains(x) == acked.contains(x),
        forall|k: int|
            0 <= k < drain(pending, acked).0.len() ==> drain(pending, acked).0[k].body.id != Some(x),
        forall|k: int|
            0 <= k < drain(pending, acked).1.len() ==> drain(pending, acked).1[k].message.body.id
                != Some(x),
    decreases pending.len(),
{
    if pending.len() > 0 {
        let t = pending.drop_last();
        assert forall|j: int| 0 <= j < t.len() implies t[j].message.body.id != Some(x) by {
            assert(t[j] == pending[j]);
        }
        lemma_drain_untouched(t, acked, x);
        assert(pending.last().message.body.id != Some(x));
    }
}

/// Delivery until acked: a pending until-acked send whose id has no ack is
/// transmitted on the cycle and kept for the next one, and its id still has
/// no ack afterwards; so, never acked, it is sent on every cycle.
pub proof fn lemma_until_acked_resent(pending: Seq<PendingSend>, acked: Set<usize>, i: int)
    requires
        0 <= i < pending.len(),
        pending[i].durability == Durability::UntilAcked,
        match pending[i].message.body.id {
            Some(x) => !acked.contains(x),
            None => true,
        },
    ensures
        drain(pending, acked).0.contains(pending[i].message),
        drain(pending, acked).1.contains(pending[i]),
        drain(pending, acked).2.subset_of(acked),
    decreases pending.len(),
{
    lemma_drain_acks_shrink(pending, acked);
    let t = pending.drop_last();
    let prev = drain(t, acked);
    lemma_drain_acks_shrink(t, acked);
    if i == pending.len() - 1 {
        assert(drain(pending, acked).0 == prev.0.push(pending[i].message));
        assert(drain(pending, acked).0[prev.0.len() as int] == pending[i].message);
        assert(drain(pending, acked).1[prev.1.len() as int] == pending[i]);
    } else {
        assert(t[i] == pending[i]);
        lemma_until_acked_resent(t, acked, i);
        let k0 = choose|k: int| 0 <= k < prev.0.len() && prev.0[k] == pending[i].message;
        let k1 = choose|k: int| 0 <= k < prev.1.len() && prev.1[k] == pending[i];
        let d = drain(pending, acked);
        assert(d.0[k0] == pending[i].message);
        assert(d.1[k1] == pending[i]);
    }
}

/// Once acked, a send (the only pending one with its id) is dropped on the
/// next cycle: nothing with its id is transmitted or kept, and its ack is
/// consumed.
pub proof fn lemma_acked_dropped(pending: Seq<PendingSend>, acked: Set<usize>, i: int, x: usize)
    requires
        0 <= i < pending.len(),
        pending[i].message.body.id == Some(x),
        acked.contains(x),
        forall|j: int| 0 <= j < pending.len() && j != i ==> pending[j].message.body.id != Some(x),
    ensures
        forall|k: int|
            0 <= k < drain(pending, acked).0.len() ==> drain(pending, acked).0[k].body.id != Some(x),
        forall|k: int|
            0 <= k < drain(pending, acked).1.len() ==> drain(pending, acked).1[k].message.body.id
                != Some(x),
        !drain(pending, acked).2.contains(x),
    decreases pending.len(),
{
    let t = pending.drop_last();
    if i == pending.len() - 1 {
        assert forall|j: int| 0 <= j < t.len() implies t[j].message.body.id != Some(x) by {
            assert(t[j] == pending[j]);
        }
        lemma_drain_untouched(t, acked, x);
    } else {
        assert(t[i] == pending[i]);
        assert forall|j: int| 0 <= j < t.len() && j != i implies t[j].message.body.id != Some(x) by {
            assert(t[j] == pending[j]);
        }
        lemma_acked_dropped(t, acked, i, x);
        assert(pending.last().message.body.id != Some(x));
    }
}

/// An association list with unique keys has as many entries as its map.
proof fn lemma_pairs_len<K, V>(s: Seq<(K, V)>)
    requires
        keys_unique(s),
    ensures
        pairs_map(s).len() == s.len(),
        pairs_map(s).dom().finite(),
    decreases s.len(),
{
    lemma_pairs_map(s);
    if s.len() > 0 {
        let t = s.drop_last();
        assert(keys_unique(t));
        lemma_pairs_len(t);
        lemma_pairs_map(t);
        if pairs_map(t).contains_key(s.last().0) {
            let j = choose|j: int| 0 <= j < t.len() && t[j].0 == s.last().0;
            assert(s[j].0 == s[s.len() - 1].0);
        }
    }
}

} // verus!
