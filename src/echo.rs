use crate::envelope::{is_reply_to, no_output, Body, Event, Init, Message, Node, NodeError};
use vstd::prelude::*;

verus! {

/// The messages of the echo service, with the start-up handshake.
pub enum EchoPayload {
    Echo { echo: String },
    EchoOk { echo: String },
    Init { node_id: String, node_ids: Vec<String> },
    InitOk,
}

/// What one call of `handle` does: from node `pre` to node `post`, given
/// `input`, giving `r`.
pub open spec fn echo_step(
    pre: EchoNode,
    input: Event<EchoPayload, ()>,
    post: EchoNode,
    r: Result<Vec<Message<EchoPayload>>, NodeError>,
) -> bool {
    match input {
        Event::EOF => no_output(r) && post.id == pre.id,
        Event::Injected(_) => r is Err && r->Err_0 is UnexpectedEvent,
        Event::Message(m) => match m.body.payload {
            EchoPayload::Echo { echo } => {
                &&& r is Ok && r->Ok_0@.len() == 1
                &&& r->Ok_0@[0].src@ == m.dst@ && r->Ok_0@[0].dst@ == m.src@
                &&& r->Ok_0@[0].body.id == m.body.id && r->Ok_0@[0].body.in_reply_to == m.body.id
                &&& r->Ok_0@[0].body.payload matches EchoPayload::EchoOk { echo: e } && e@ == echo@
                &&& post.id == if pre.id < usize::MAX {
                    pre.id + 1
                } else {
                    pre.id as int
                }
            },
            EchoPayload::Init { .. } => if pre.id == usize::MAX {
                r is Err && r->Err_0 is IdsExhausted
            } else {
                &&& r is Ok && r->Ok_0@.len() == 1
                &&& is_reply_to(r->Ok_0@[0], m, pre.id as nat)
                &&& r->Ok_0@[0].body.payload is InitOk
                &&& post.id == pre.id + 1
            },
            EchoPayload::EchoOk { .. } => no_output(r) && post.id == pre.id,
            EchoPayload::InitOk => r is Err && r->Err_0 is InitOk,
        },
    }
}

/// What `from_init` gives: a node whose counter starts at 1.
pub open spec fn echo_started(init: Init, n: EchoNode) -> bool {
    n.id == 1
}

/// A node that sends every echo request's text back.
pub struct EchoNode {
    pub id: usize,
}

impl EchoNode {
    /// A node whose counter starts at 1.
    pub fn from_init(init: Init) -> (r: Self)
        ensures
            echo_started(init, r),
    {
        EchoNode { id: 1 }
    }

    /// Handles one event. An echo request is answered with the same text,
    /// and the answer repeats the request's id both as its own id and in
    /// `in_reply_to`; the counter advances unless it is at its largest
    /// value. A start-up handshake is acknowledged with the counter's value
    /// as id, which then advances; at the largest value it is an error. An
    /// echo answer and the end of input are ignored; an `init_ok` and an
    /// injected event are errors.
    pub fn handle(&mut self, input: Event<EchoPayload, ()>) -> (r: Result<Vec<Message<EchoPayload>>, NodeError>)
        ensures
            echo_step(*old(self), input, *final(self), r),
    {
        let m = match input {
            Event::EOF => return Ok(Vec::new()),
            Event::Injected(_) => return Err(NodeError::UnexpectedEvent),
            Event::Message(m) => m,
        };
        let Message { src, dst, body: Body { id, in_reply_to, payload } } = m;
        match payload {
            EchoPayload::Echo { echo } => {
                let reply = Message {
                    src: dst,
                    dst: src,
                    body: Body { in_reply_to: id, id, payload: EchoPayload::EchoOk { echo } },
                };
                if self.id < usize::MAX {
                    self.id = self.id + 1;
                }
                Ok(vec![reply])
            },
            EchoPayload::Init { .. } => {
                if self.id == usize::MAX {
                    return Err(NodeError::IdsExhausted);
                }
                let reply = Message {
                    src: dst,
                    dst: src,
                    body: Body { in_reply_to: id, id: Some(self.id), payload: EchoPayload::InitOk },
                };
                self.id = self.id + 1;
                Ok(vec![reply])
            },
            EchoPayload::EchoOk { .. } => Ok(Vec::new()),
            EchoPayload::InitOk => Err(NodeError::InitOk),
        }
    }
}

impl Node<EchoPayload, ()> for EchoNode {
    open spec fn inv(&self) -> bool {
        true
    }

    open spec fn initialized(init: Init, r: Result<Self, NodeError>) -> bool {
        r matches Ok(n) && echo_started(init, n)
    }

    open spec fn handled(pre: Self, input: Event<EchoPayload, ()>, post: Self, r: Result<Vec<Message<EchoPayload>>, NodeError>) -> bool {
        echo_step(pre, input, post, r)
    }

    fn from_init(init: Init) -> (r: Result<Self, NodeError>) {
        Ok(EchoNode::from_init(init))
    }

    fn handle(&mut self, input: Event<EchoPayload, ()>) -> (r: Result<Vec<Message<EchoPayload>>, NodeError>) {
        EchoNode::handle(self, input)
    }
}

} // verus!
