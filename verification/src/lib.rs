//! A runtime library for nodes in a distributed-systems test harness.
//!
//! Each node is a process that exchanges newline-delimited JSON records
//! with a coordinator over standard input and output. This crate holds the
//! verified core: the message envelope and reply discipline, the wire
//! encoder, the dispatcher's source classification, and the workload
//! engines (echo, unique-id generation, gossip broadcast, and a replicated
//! grow-only counter driven by an external key-value service).
//!
//! Reading lines from stdin, writing lines to stdout, and the task
//! scheduling around the engines are left to the embedding program; the
//! engines hand back the full records to emit, already in program order.

pub mod broadcast;
pub mod codec;
pub mod counter;
pub mod dispatch;
pub mod echo;
pub mod unique;
pub mod values;

use vstd::prelude::*;

verus! {

/// The wire envelope: a record sent from `src` to `dst` carrying a `body`.
#[derive(Debug, Clone)]
pub struct Message<P> {
    pub src: String,
    pub dst: String,
    pub body: Body<P>,
}

/// The body of a message: an optional per-node sequence number `id`,
/// the peer's sequence number this record answers (`in_reply_to`),
/// and a workload-specific payload.
#[derive(Debug, Clone)]
pub struct Body<P> {
    pub id: Option<usize>,
    pub in_reply_to: Option<usize>,
    pub payload: P,
}

/// Everything the runtime hands to an engine: a client message, a message
/// from an external service, a locally injected signal, or end of input.
pub enum Event<P, SP = (), IP = ()> {
    Message(Message<P>),
    ServiceMessage(Message<SP>),
    Injected(IP),
    EOF,
}

/// The initialization record delivered exactly once, as the first inbound
/// message: this node's identifier and the identifiers of every node in
/// the cluster.
#[derive(Debug, Clone)]
pub struct Init {
    pub node_id: String,
    pub node_ids: Vec<String>,
}

/// The payload namespace of the initialization exchange.
#[derive(Debug, Clone)]
pub enum InitPayload {
    Init(Init),
    InitOk,
}

/// Ways a node can find the conversation itself broken; the embedding
/// program terminates the process on any of these.
#[derive(Debug, Clone, PartialEq, Eq, Structural)]
pub enum ProtocolError {
    /// The first inbound record did not carry an `init` payload.
    NotInit,
    /// A gossip arrived from a peer that init never introduced.
    UnknownPeer,
    /// A topology map has no entry for this node.
    TopologyWithoutSelf,
    /// A reply was requested of a record that is itself a reply.
    UnexpectedReply,
}

/// The envelope discipline every reply follows: source and destination
/// swapped, `in_reply_to` answering the request's sequence number, and a
/// fresh sequence number of its own.
pub open spec fn reply_envelope<P>(reply: Message<P>, req: Message<P>, id: usize) -> bool {
    &&& reply.src == req.dst
    &&& reply.dst == req.src
    &&& reply.body.id == Some(id)
    &&& reply.body.in_reply_to == req.body.id
}

impl<P> Message<P> {
    /// Turn a received message into its reply: source and destination are
    /// swapped, `in_reply_to` echoes the received sequence number, and a
    /// fresh sequence number is drawn from the node's counter `id`.
    /// The payload is carried over unchanged; the caller replaces it.
    /// The counter is not optional: every reply draws a number, so a
    /// node's sequence numbers stay strictly monotonic.
    pub fn into_reply(self, id: &mut usize) -> (r: Self)
        requires
            *old(id) < usize::MAX,
        ensures
            r.src == self.dst,
            r.dst == self.src,
            r.body.id == Some(*old(id)),
            r.body.in_reply_to == self.body.id,
            r.body.payload == self.body.payload,
            *final(id) == *old(id) + 1,
    {
        let mid: usize = *id;
        *id = mid + 1;
        Message {
            src: self.dst,
            dst: self.src,
            body: Body { id: Some(mid), in_reply_to: self.body.id, payload: self.body.payload },
        }
    }
}

/// Handle the first inbound record. If it is an `init`, hand back the
/// initialization data together with the `init_ok` reply that must be
/// emitted before any other output; the reply answers the request's
/// sequence number and carries sequence number 0, the first this node
/// ever assigns.
pub fn handle_init(msg: Message<InitPayload>) -> (r: Result<
    (Init, Message<InitPayload>),
    ProtocolError,
>)
    ensures
        match r {
            Ok((init, reply)) => {
                &&& msg.body.payload matches InitPayload::Init(i) && init == i
                &&& reply.src == msg.dst
                &&& reply.dst == msg.src
                &&& reply.body.id == Some(0usize)
                &&& reply.body.in_reply_to == msg.body.id
                &&& reply.body.payload is InitOk
            },
            Err(e) => e == ProtocolError::NotInit && !(msg.body.payload is Init),
        },
{
    match msg.body.payload {
        InitPayload::Init(init) => {
            let reply = Message {
                src: msg.dst,
                dst: msg.src,
                body: Body {
                    id: Some(0usize),
                    in_reply_to: msg.body.id,
                    payload: InitPayload::InitOk,
                },
            };
            Ok((init, reply))
        },
        InitPayload::InitOk => Err(ProtocolError::NotInit),
    }
}

/// Sequence numbers are strictly monotonic per node: every reply draws a
/// fresh number from the counter, which `into_reply` then advances, so
/// two replies built at different counter values never share a sequence
/// number.
pub proof fn lemma_reply_ids_distinct<P>(
    r1: Message<P>,
    q1: Message<P>,
    r2: Message<P>,
    q2: Message<P>,
    c1: usize,
    c2: usize,
)
    requires
        reply_envelope(r1, q1, c1),
        reply_envelope(r2, q2, c2),
        c1 != c2,
    ensures
        r1.body.id != r2.body.id,
{
}

} // verus!
