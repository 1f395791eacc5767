use vstd::prelude::*;

use crate::message::{Body, Message, Payload};

verus! {

/// The key-value service's error code for a missing key.
pub const KEY_NOT_FOUND: u64 = 20;

/// The key-value service's error code for a failed compare-and-swap.
pub const PRECONDITION_FAILED: u64 = 21;

/// What a reply of the key-value service means to its caller.
#[derive(Debug, Clone, Copy, PartialEq, Eq, Structural)]
pub enum LinkKVResponse {
    KeyNotFound,
    Value(usize),
    CompareFailed,
    Success,
    Failed,
}

/// The meaning of a reply to a read.
pub open spec fn read_reply(p: Payload) -> LinkKVResponse {
    match p {
        Payload::ReadOk { value } => LinkKVResponse::Value(value),
        Payload::Error { code, .. } => if code == KEY_NOT_FOUND {
            LinkKVResponse::KeyNotFound
        } else {
            LinkKVResponse::Failed
        },
        _ => LinkKVResponse::Failed,
    }
}

/// The meaning of a reply to a compare-and-swap.
pub open spec fn cas_reply(p: Payload) -> LinkKVResponse {
    match p {
        Payload::CasOk => LinkKVResponse::Success,
        Payload::Error { code, .. } => if code == KEY_NOT_FOUND {
            LinkKVResponse::KeyNotFound
        } else if code == PRECONDITION_FAILED {
            LinkKVResponse::CompareFailed
        } else {
            LinkKVResponse::Failed
        },
        _ => LinkKVResponse::Failed,
    }
}

impl LinkKVResponse {
    pub fn from_read_reply(p: &Payload) -> (r: LinkKVResponse)
        ensures
            r == read_reply(*p),
    {
        match p {
            Payload::ReadOk { value } => LinkKVResponse::Value(*value),
            Payload::Error { code, .. } => {
                if *code == KEY_NOT_FOUND {
                    LinkKVResponse::KeyNotFound
                } else {
                    LinkKVResponse::Failed
                }
            },
            _ => LinkKVResponse::Failed,
        }
    }

    pub fn from_cas_reply(p: &Payload) -> (r: LinkKVResponse)
        ensures
            r == cas_reply(*p),
    {
        match p {
            Payload::CasOk => LinkKVResponse::Success,
            Payload::Error { code, .. } => {
                if *code == KEY_NOT_FOUND {
                    LinkKVResponse::KeyNotFound
                } else if *code == PRECONDITION_FAILED {
                    LinkKVResponse::CompareFailed
                } else {
                    LinkKVResponse::Failed
                }
            },
            _ => LinkKVResponse::Failed,
        }
    }
}

/// Whether a message comes from the key-value service; such replies are kept
/// apart from the node's other traffic.
pub fn is_kv_reply(m: &Message) -> (r: bool)
    ensures
        r == (m.src@ == "lin-kv"@),
{
    let service = "lin-kv".to_owned();
    m.src == service
}

/// An operation on the allocator's key in the key-value service.
#[derive(Debug, Clone, Copy, PartialEq, Eq, Structural)]
pub enum KvOp {
    Read,
    Write { value: usize },
    Cas { from: usize, to: usize },
}

/// Builds requests to the key-value service on behalf of a node.
#[derive(Debug)]
pub struct LinkKv {
    pub node_name: String,
}

impl LinkKv {
    pub fn new() -> (r: LinkKv)
        ensures
            r.node_name@ == "default"@,
    {
        LinkKv { node_name: "default".to_owned() }
    }

    pub fn set_node_name(&mut self, node_name: String)
        ensures
            final(self).node_name == node_name,
    {
        self.node_name = node_name;
    }

    fn request(&self, msg_id: usize, payload: Payload) -> (r: Message)
        ensures
            r.src@ == self.node_name@,
            r.dst@ == "lin-kv"@,
            r.body.id == Some(msg_id),
            r.body.in_reply_to.is_none(),
            r.body.payload == payload,
    {
        Message::new(
            self.node_name.clone(),
            "lin-kv".to_owned(),
            Body::new(Some(msg_id), None, payload),
        )
    }

    /// A read of `key`.
    pub fn get(&self, key: String, msg_id: usize) -> (r: Message)
        ensures
            r.src@ == self.node_name@,
            r.dst@ == "lin-kv"@,
            r.body.id == Some(msg_id),
            r.body.in_reply_to.is_none(),
            r.body.payload == (Payload::Read { key }),
    {
        self.request(msg_id, Payload::Read { key })
    }

    /// A write of `value` to `key`.
    pub fn set(&self, key: String, value: usize, msg_id: usize) -> (r: Message)
        ensures
            r.src@ == self.node_name@,
            r.dst@ == "lin-kv"@,
            r.body.id == Some(msg_id),
            r.body.in_reply_to.is_none(),
            r.body.payload == (Payload::Write { key, value }),
    {
        self.request(msg_id, Payload::Write { key, value })
    }

    /// A compare-and-swap of `key` from `value` to `new_value`.
    pub fn compare_and_set(&self, key: String, value: usize, new_value: usize, msg_id: usize) -> (r:
        Message)
        ensures
            r.src@ == self.node_name@,
            r.dst@ == "lin-kv"@,
            r.body.id == Some(msg_id),
            r.body.in_reply_to.is_none(),
            r.body.payload == (Payload::Cas { key, from: value, to: new_value }),
    {
        self.request(msg_id, Payload::Cas { key, from: value, to: new_value })
    }

    /// The request message for an allocator's next operation.
    pub fn op_request(&self, key: &String, op: KvOp, msg_id: usize) -> (r: Message)
        ensures
            r.src@ == self.node_name@,
            r.dst@ == "lin-kv"@,
            r.body.id == Some(msg_id),
            r.body.in_reply_to.is_none(),
            r.body.payload == match op {
                KvOp::Read => Payload::Read { key: *key },
                KvOp::Write { value } => Payload::Write { key: *key, value },
                KvOp::Cas { from, to } => Payload::Cas { key: *key, from, to },
            },
    {
        match op {
            KvOp::Read => self.get(key.clone(), msg_id),
            KvOp::Write { value } => self.set(key.clone(), value, msg_id),
            KvOp::Cas { from, to } => self.compare_and_set(key.clone(), from, to, msg_id),
        }
    }
}

/// Where an offset allocation stands.
#[derive(Debug, Clone, Copy, PartialEq, Eq, Structural)]
pub enum AllocPhase {
    /// Waiting for the current value of the counter key.
    Reading,
    /// Waiting for the result of raising the counter from `from` to `from + 1`.
    Swapping { from: usize },
    /// The key was missing; waiting for the write of 0, which is then the
    /// offset, whatever other allocator raced to the same write.
    Initializing,
    /// The offset has been allocated.
    Finished,
}

/// The operation that a phase sends to the key-value service.
pub open spec fn phase_op(p: AllocPhase) -> KvOp {
    match p {
        AllocPhase::Reading => KvOp::Read,
        AllocPhase::Swapping { from } => KvOp::Cas { from, to: (from + 1) as usize },
        AllocPhase::Initializing => KvOp::Write { value: 0 },
        AllocPhase::Finished => KvOp::Read,
    }
}

pub open spec fn phase_ok(p: AllocPhase) -> bool {
    match p {
        AllocPhase::Swapping { from } => from < usize::MAX,
        _ => true,
    }
}

/// A missing key is initialized by a plain write, not by an atomic
/// create-if-absent: two allocators that both find the key missing both take
/// offset 0. This race is kept; a node that finds offset 0 already written in
/// its own log allocates again (see `Node::on_kv_reply`), while a duplicate
/// that has not reached its log yet goes unnoticed.
///
/// The allocator's transition on a reply: the next phase, and the offset
/// allocated, if any. A read value starts a compare-and-swap to the next
/// value (a counter at the largest value is read again); a missing key is
/// initialized to 0, which is then the offset; a successful swap from `v`
/// allocates `v + 1`; every other reply starts over with a read.
pub open spec fn alloc_next(p: AllocPhase, reply: LinkKVResponse) -> (AllocPhase, Option<usize>) {
    match p {
        AllocPhase::Reading => match reply {
            LinkKVResponse::Value(v) => if v < usize::MAX {
                (AllocPhase::Swapping { from: v }, None)
            } else {
                (AllocPhase::Reading, None)
            },
            LinkKVResponse::KeyNotFound => (AllocPhase::Initializing, None),
            _ => (AllocPhase::Reading, None),
        },
        AllocPhase::Swapping { from } => match reply {
            LinkKVResponse::Success => (AllocPhase::Finished, Some((from + 1) as usize)),
            LinkKVResponse::KeyNotFound => (AllocPhase::Initializing, None),
            _ => (AllocPhase::Reading, None),
        },
        AllocPhase::Initializing => (AllocPhase::Finished, Some(0usize)),
        AllocPhase::Finished => (AllocPhase::Finished, None),
    }
}

/// One allocation of a log offset through read and compare-and-swap on the
/// log's counter key.
#[derive(Debug)]
pub struct OffsetAllocation {
    pub key: String,
    pub phase: AllocPhase,
}

impl OffsetAllocation {
    pub fn new(key: String) -> (r: OffsetAllocation)
        ensures
            r.key == key,
            r.phase == AllocPhase::Reading,
    {
        OffsetAllocation { key, phase: AllocPhase::Reading }
    }

    /// The operation to send for the current phase.
    pub fn next_op(&self) -> (r: KvOp)
        requires
            phase_ok(self.phase),
        ensures
            r == phase_op(self.phase),
    {
        match self.phase {
            AllocPhase::Reading => KvOp::Read,
            AllocPhase::Swapping { from } => KvOp::Cas { from, to: from + 1 },
            AllocPhase::Initializing => KvOp::Write { value: 0 },
            AllocPhase::Finished => KvOp::Read,
        }
    }

    /// Takes the service's reply, already interpreted, and returns the
    /// allocated offset once there is one.
    pub fn on_reply(&mut self, reply: LinkKVResponse) -> (r: Option<usize>)
        requires
            phase_ok(old(self).phase),
        ensures
            (final(self).phase, r) == alloc_next(old(self).phase, reply),
            phase_ok(final(self).phase),
            final(self).key == old(self).key,
    {
        let (phase, r) = match self.phase {
            AllocPhase::Reading => match reply {
                LinkKVResponse::Value(v) => {
                    if v < usize::MAX {
                        (AllocPhase::Swapping { from: v }, None)
                    } else {
                        (AllocPhase::Reading, None)
                    }
                },
                LinkKVResponse::KeyNotFound => (AllocPhase::Initializing, None),
                _ => (AllocPhase::Reading, None),
            },
            AllocPhase::Swapping { from } => match reply {
                LinkKVResponse::Success => (AllocPhase::Finished, Some(from + 1)),
                LinkKVResponse::KeyNotFound => (AllocPhase::Initializing, None),
                _ => (AllocPhase::Reading, None),
            },
            AllocPhase::Initializing => (AllocPhase::Finished, Some(0)),
            AllocPhase::Finished => (AllocPhase::Finished, None),
        };
        self.phase = phase;
        r
    }

    /// Takes the service's reply message for the current phase.
    pub fn on_payload(&mut self, p: &Payload) -> (r: Option<usize>)
        requires
            phase_ok(old(self).phase),
        ensures
            (final(self).phase, r) == alloc_next(
                old(self).phase,
                match old(self).phase {
                    AllocPhase::Swapping { .. } => cas_reply(*p),
                    _ => read_reply(*p),
                },
            ),
            phase_ok(final(self).phase),
            final(self).key == old(self).key,
    {
        let reply = match self.phase {
            AllocPhase::Swapping { .. } => LinkKVResponse::from_cas_reply(p),
            _ => LinkKVResponse::from_read_reply(p),
        };
        self.on_reply(reply)
    }
}

/// The key-value service on one key: the value it holds after an
/// operation, and its reply. The service is linearizable, so concurrent
/// operations act on it one at a time.
pub open spec fn kv_apply(store: Option<usize>, op: KvOp) -> (Option<usize>, LinkKVResponse) {
    match op {
        KvOp::Read => match store {
            Some(v) => (store, LinkKVResponse::Value(v)),
            None => (store, LinkKVResponse::KeyNotFound),
        },
        KvOp::Write { value } => (Some(value), LinkKVResponse::Success),
        KvOp::Cas { from, to } => match store {
            Some(v) => if v == from {
                (Some(to), LinkKVResponse::Success)
            } else {
                (store, LinkKVResponse::CompareFailed)
            },
            None => (store, LinkKVResponse::KeyNotFound),
        },
    }
}

/// Concurrent allocators on one key, run in the order `schedule` picks them:
/// each turn the chosen allocator's operation is applied to the service and
/// the reply handed back. Yields the service's value, the phases, and the
/// offsets allocated, in order.
pub open spec fn run_allocators(
    store: Option<usize>,
    phases: Seq<AllocPhase>,
    schedule: Seq<int>,
) -> (Option<usize>, Seq<AllocPhase>, Seq<usize>)
    decreases schedule.len(),
{
    if schedule.len() == 0 {
        (store, phases, Seq::empty())
    } else {
        let prev = run_allocators(store, phases, schedule.drop_last());
        let i = schedule.last();
        if 0 <= i < prev.1.len() && prev.1[i] != AllocPhase::Finished {
            let (s2, reply) = kv_apply(prev.0, phase_op(prev.1[i]));
            let (ph, out) = alloc_next(prev.1[i], reply);
            (
                s2,
                prev.1.update(i, ph),
                match out {
                    Some(o) => prev.2.push(o),
                    None => prev.2,
                },
            )
        } else {
            prev
        }
    }
}

/// Offset allocator uniqueness: allocators that start by reading a key that
/// already holds `v0`, however their operations interleave, allocate the
/// offsets `v0 + 1, v0 + 2, ...` in the order they finish: no offset twice
/// and none skipped, and the key ends at the last one.
pub proof fn lemma_allocations_unique(v0: usize, phases: Seq<AllocPhase>, schedule: Seq<int>)
    requires
        forall|i: int| 0 <= i < phases.len() ==> phases[i] == AllocPhase::Reading,
    ensures
        ({
            let r = run_allocators(Some(v0), phases, schedule);
            &&& r.0 is Some
            &&& r.0->0 == v0 + r.2.len()
            &&& forall|k: int| 0 <= k < r.2.len() ==> r.2[k] == v0 + k + 1
        }),
    decreases schedule.len(),
{
    if schedule.len() > 0 {
        lemma_allocations_unique(v0, phases, schedule.drop_last());
        lemma_allocators_invariant(v0, phases, schedule.drop_last());
    }
}

/// While the key holds a value no allocator initializes it, and every
/// pending swap starts from a value the key has held.
proof fn lemma_allocators_invariant(v0: usize, phases: Seq<AllocPhase>, schedule: Seq<int>)
    requires
        forall|i: int| 0 <= i < phases.len() ==> phases[i] == AllocPhase::Reading,
    ensures
        ({
            let r = run_allocators(Some(v0), phases, schedule);
            &&& r.0 is Some
            &&& r.1.len() == phases.len()
            &&& forall|i: int|
                0 <= i < r.1.len() ==> r.1[i] != AllocPhase::Initializing && match r.1[i] {
                    AllocPhase::Swapping { from } => from < usize::MAX,
                    _ => true,
                }
        }),
    decreases schedule.len(),
{
    if schedule.len() > 0 {
        lemma_allocators_invariant(v0, phases, schedule.drop_last());
    }
}

} // verus!
