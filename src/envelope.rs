use vstd::prelude::*;

verus! {

/// The body of an envelope: an optional id of its own, the optional id of
/// the request it answers, and the payload.
pub struct Body<P> {
    pub id: Option<usize>,
    pub in_reply_to: Option<usize>,
    pub payload: P,
}

/// An envelope: where it comes from, where it goes, and its body.
pub struct Message<P> {
    pub src: String,
    pub dst: String,
    pub body: Body<P>,
}

/// What a node learns at start-up: its own id and the ids of all nodes.
pub struct Init {
    pub node_id: String,
    pub node_ids: Vec<String>,
}

/// One event for a node: an inbound envelope, a locally injected event
/// (a gossip tick), or the end of input.
pub enum Event<P, IP> {
    Message(Message<P>),
    Injected(IP),
    EOF,
}

/// What a node injects into its own event stream: a gossip tick.
#[derive(Clone, Copy, Debug)]
pub enum InjectedPayload {
    Gossip,
}

/// Why a node gave up on an event. Each of these is fatal for the node.
pub enum NodeError {
    /// A topology message had no entry for the receiving node.
    NoTopology,
    /// The node's message-id counter has reached its largest value.
    IdsExhausted,
    /// A counter value no longer fits in a `usize`.
    Overflow,
    /// An event that this kind of node does not take.
    UnexpectedEvent,
    /// The node's own id is not among the cluster's ids.
    UnknownNode,
    /// An `init_ok` arrived where a request was expected.
    InitOk,
}

/// `r` answers `req`: it goes back to the sender, carries the request's
/// id in `in_reply_to`, and is stamped with `id`.
pub open spec fn is_reply_to<P, Q>(r: Message<Q>, req: Message<P>, id: nat) -> bool {
    &&& r.src@ == req.dst@
    &&& r.dst@ == req.src@
    &&& r.body.in_reply_to == req.body.id
    &&& r.body.id == Some(id as usize)
}

/// `r` is a success that sends nothing.
pub open spec fn no_output<P>(r: Result<Vec<Message<P>>, NodeError>) -> bool {
    r is Ok && r->Ok_0@.len() == 0
}

/// `r` is a success that sends one reply to `m`, stamped with `id`.
pub open spec fn one_reply<P>(r: Result<Vec<Message<P>>, NodeError>, m: Message<P>, id: nat) -> bool {
    r is Ok && r->Ok_0@.len() == 1 && is_reply_to(r->Ok_0@[0], m, id)
}

impl<P> Message<P> {
    /// Turns a request into its reply: source and destination swap places,
    /// `in_reply_to` takes the request's id and the payload is kept. With a
    /// counter the reply is stamped with its current value, which then
    /// advances by one; without one the reply carries no id.
    pub fn into_reply(self, msg_id: Option<&mut usize>) -> (r: Self)
        requires
            msg_id matches Some(c) ==> *c < usize::MAX,
        ensures
            r.src == self.dst,
            r.dst == self.src,
            r.body.in_reply_to == self.body.id,
            r.body.payload == self.body.payload,
            msg_id matches Some(c) ==> r.body.id == Some(*c) && *final(c) == *c + 1,
            msg_id is None ==> r.body.id is None,
    {
        let id = match msg_id {
            Some(c) => {
                let mid = *c;
                *c = mid + 1;
                Some(mid)
            },
            None => None,
        };
        Message {
            src: self.dst,
            dst: self.src,
            body: Body { id, in_reply_to: self.body.id, payload: self.body.payload },
        }
    }
}

/// A node that a runtime can drive: built once from the start-up
/// handshake, then handed one event at a time. What `handle` returns is
/// what the runtime sends, in order.
pub trait Node<P, IP>: Sized {
    /// What the node keeps true between events.
    spec fn inv(&self) -> bool;

    /// What building a node from `init` gives.
    spec fn initialized(init: Init, r: Result<Self, NodeError>) -> bool;

    /// What handling `input` does: from node `pre` to node `post`, with the
    /// envelopes to send or the error in `r`.
    spec fn handled(pre: Self, input: Event<P, IP>, post: Self, r: Result<Vec<Message<P>>, NodeError>) -> bool;

    fn from_init(init: Init) -> (r: Result<Self, NodeError>)
        ensures
            Self::initialized(init, r),
            r matches Ok(n) ==> n.inv(),
    ;

    fn handle(&mut self, input: Event<P, IP>) -> (r: Result<Vec<Message<P>>, NodeError>)
        requires
            old(self).inv(),
        ensures
            final(self).inv(),
            Self::handled(*old(self), input, *final(self), r),
    ;
}

} // verus!
