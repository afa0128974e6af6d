//! The echo workload: every `echo` request is answered by an `echo_ok`
//! carrying the same text. Also handles the initialization exchange for
//! the standalone echo program, which processes its input synchronously.

use crate::{Body, Init, Message, ProtocolError};
use vstd::prelude::*;

verus! {

/// The payload namespace of the standalone echo node: the echo exchange
/// and the initialization exchange share one tag space.
#[derive(Debug, Clone)]
pub enum EchoPayload {
    Echo { echo: String },
    EchoOk { echo: String },
    Init { node_id: String, node_ids: Vec<String> },
    InitOk,
}

/// The echo node: all its state is the sequence counter for outgoing
/// messages.
pub struct EchoNode {
    pub id: usize,
}

impl EchoNode {
    /// The standalone composition: the engine itself answers the `init`
    /// record, so the counter starts at 0 and the `init_ok` reply takes
    /// that first number.
    pub fn new() -> (r: Self)
        ensures
            r.id == 0,
    {
        EchoNode { id: 0 }
    }

    /// The runtime composition: the runtime has already answered the
    /// `init` record with sequence number 0 before the engine exists, so
    /// the engine's own replies start at 1, keeping the node's sequence
    /// numbers strictly monotonic.
    pub fn from_init(_init: Init) -> (r: Self)
        ensures
            r.id == 1,
    {
        EchoNode { id: 1 }
    }

    /// Handle one inbound message. An `init` is answered by `init_ok`, an
    /// `echo` by `echo_ok` with the same text; a stray `init_ok` is a
    /// protocol violation, and a stray `echo_ok` is ignored. Every reply
    /// swaps the envelope, answers the request's sequence number, and
    /// consumes one fresh sequence number.
    pub fn step(&mut self, input: Message<EchoPayload>) -> (r: Result<
        Option<Message<EchoPayload>>,
        ProtocolError,
    >)
        requires
            old(self).id < usize::MAX,
        ensures
            match r {
                Ok(Some(reply)) => {
                    &&& reply.src == input.dst
                    &&& reply.dst == input.src
                    &&& reply.body.id == Some(old(self).id)
                    &&& reply.body.in_reply_to == input.body.id
                    &&& final(self).id == old(self).id + 1
                    &&& match input.body.payload {
                        EchoPayload::Init { .. } => reply.body.payload is InitOk,
                        EchoPayload::Echo { echo } => reply.body.payload
                            == (EchoPayload::EchoOk { echo }),
                        _ => false,
                    }
                },
                Ok(None) => {
                    &&& input.body.payload is EchoOk
                    &&& *final(self) == *old(self)
                },
                Err(e) => {
                    &&& e == ProtocolError::UnexpectedReply
                    &&& input.body.payload is InitOk
                    &&& *final(self) == *old(self)
                },
            },
    {
        match input.body.payload {
            EchoPayload::Init { .. } => {
                let reply = Message {
                    src: input.dst,
                    dst: input.src,
                    body: Body {
                        id: Some(self.id),
                        in_reply_to: input.body.id,
                        payload: EchoPayload::InitOk,
                    },
                };
                self.id = self.id + 1;
                Ok(Some(reply))
            },
            EchoPayload::Echo { echo } => {
                let reply = Message {
                    src: input.dst,
                    dst: input.src,
                    body: Body {
                        id: Some(self.id),
                        in_reply_to: input.body.id,
                        payload: EchoPayload::EchoOk { echo },
                    },
                };
                self.id = self.id + 1;
                Ok(Some(reply))
            },
            EchoPayload::InitOk => Err(ProtocolError::UnexpectedReply),
            EchoPayload::EchoOk { .. } => Ok(None),
        }
    }
}

} // verus!
