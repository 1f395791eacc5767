use vstd::prelude::*;

use crate::node_state::NodeState;

verus! {

/// The kind of one operation inside a transaction.
#[derive(Debug, Clone, Copy, PartialEq, Eq, Structural)]
pub enum TxnType {
    R,
    W,
}

/// One operation of a transaction: its kind, the key, and the value read or written.
#[derive(Debug, Clone, Copy, PartialEq, Eq, Structural)]
pub struct TxnEntry(pub TxnType, pub i32, pub Option<i32>);

/// The closed set of message kinds that travel between nodes, clients and the
/// external key-value service.
#[derive(Debug)]
pub enum Payload {
    Echo { echo: String },
    EchoOk { echo: String },
    Init { node_id: String, node_ids: Vec<String> },
    InitOk,
    Topology { topology: Vec<(String, Vec<String>)> },
    TopologyOk,
    /// A snapshot of the sender's convergent state.
    Gossip { received_state: NodeState },
    GossipOk,
    Txn { txn: Vec<TxnEntry> },
    TxnOk { txn: Vec<TxnEntry> },
    /// Append `msg` to the log named `key`.
    Send { key: String, msg: i64 },
    SendOk { offset: usize },
    /// For each log, the first offset the client wants.
    Poll { offsets: Vec<(String, usize)> },
    /// For each log, the (offset, value) pairs from the requested offset on.
    PollOk { msgs: Vec<(String, Vec<(usize, i64)>)> },
    CommitOffsets { offsets: Vec<(String, usize)> },
    CommitOffsetsOk,
    ListCommittedOffsets { keys: Vec<String> },
    ListCommittedOffsetsOk { offsets: Vec<(String, usize)> },
    /// Requests to and replies from the key-value service.
    Read { key: String },
    ReadOk { value: usize },
    Write { key: String, value: usize },
    WriteOk,
    Cas { key: String, from: usize, to: usize },
    CasOk,
    Error { code: u64, text: String },
}

/// Header fields and payload of a message.
#[derive(Debug)]
pub struct Body {
    pub id: Option<usize>,
    pub in_reply_to: Option<usize>,
    pub payload: Payload,
}

impl Body {
    pub fn new(id: Option<usize>, in_reply_to: Option<usize>, payload: Payload) -> (r: Body)
        ensures
            r.id == id,
            r.in_reply_to == in_reply_to,
            r.payload == payload,
    {
        Body { id, in_reply_to, payload }
    }

    pub fn get_message_id(&self) -> (r: Option<usize>)
        ensures
            r == self.id,
    {
        self.id
    }

    pub fn get_in_reply_to(&self) -> (r: Option<usize>)
        ensures
            r == self.in_reply_to,
    {
        self.in_reply_to
    }

    pub fn get_payload(&self) -> (r: &Payload)
        ensures
            *r == self.payload,
    {
        &self.payload
    }
}

/// An envelope: source, destination and body.
#[derive(Debug)]
pub struct Message {
    pub src: String,
    pub dst: String,
    pub body: Body,
}

impl Message {
    pub fn new(src: String, dst: String, body: Body) -> (r: Message)
        ensures
            r.src == src,
            r.dst == dst,
            r.body == body,
    {
        Message { src, dst, body }
    }

    pub fn get_payload(&self) -> (r: &Payload)
        ensures
            *r == self.body.payload,
    {
        self.body.get_payload()
    }

    pub fn get_src(&self) -> (r: &str)
        ensures
            r@ == self.src@,
    {
        self.src.as_str()
    }

    pub fn get_dst(&self) -> (r: &str)
        ensures
            r@ == self.dst@,
    {
        self.dst.as_str()
    }

    pub fn get_message_id(&self) -> (r: Option<usize>)
        ensures
            r == self.body.id,
    {
        self.body.get_message_id()
    }

    pub fn get_in_reply_to(&self) -> (r: Option<usize>)
        ensures
            r == self.body.in_reply_to,
    {
        self.body.get_in_reply_to()
    }
}

} // verus!
