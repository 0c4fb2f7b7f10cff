use crate::envelope::{Body, Event, Init, Message, Node, NodeError};
use vstd::prelude::*;
use vstd::string::StringExecFns;

verus! {

/// The messages of the unique-id service.
pub enum UniquePayload {
    Generate,
    GenerateOk { guid: String },
}

/// The character of the decimal digit `d`.
pub open spec fn digit(d: nat) -> char {
    if d == 0 { '0' }
    else if d == 1 { '1' }
    else if d == 2 { '2' }
    else if d == 3 { '3' }
    else if d == 4 { '4' }
    else if d == 5 { '5' }
    else if d == 6 { '6' }
    else if d == 7 { '7' }
    else if d == 8 { '8' }
    else { '9' }
}

/// `n` written in decimal, without leading zeros.
pub open spec fn decimal(n: nat) -> Seq<char>
    decreases n,
{
    if n < 10 {
        seq![digit(n)]
    } else {
        decimal(n / 10).push(digit(n % 10))
    }
}

/// The id handed out by `node` when its counter stands at `n`.
pub open spec fn guid(node: Seq<char>, n: nat) -> Seq<char> {
    node + seq!['-'] + decimal(n)
}

/// The decimal digit `d` as a string.
fn digit_str(d: usize) -> (r: &'static str)
    requires
        d < 10,
    ensures
        r@ == seq![digit(d as nat)],
{
    if d == 0 {
        proof {
            reveal_strlit("0");
        }
        "0"
    } else if d == 1 {
        proof {
            reveal_strlit("1");
        }
        "1"
    } else if d == 2 {
        proof {
            reveal_strlit("2");
        }
        "2"
    } else if d == 3 {
        proof {
            reveal_strlit("3");
        }
        "3"
    } else if d == 4 {
        proof {
            reveal_strlit("4");
        }
        "4"
    } else if d == 5 {
        proof {
            reveal_strlit("5");
        }
        "5"
    } else if d == 6 {
        proof {
            reveal_strlit("6");
        }
        "6"
    } else if d == 7 {
        proof {
            reveal_strlit("7");
        }
        "7"
    } else if d == 8 {
        proof {
            reveal_strlit("8");
        }
        "8"
    } else {
        proof {
            reveal_strlit("9");
        }
        "9"
    }
}

/// `n` written in decimal.
fn decimal_string(n: usize) -> (r: String)
    ensures
        r@ == decimal(n as nat),
    decreases n,
{
    if n < 10 {
        let mut s = String::new();
        s.append(digit_str(n));
        assert(s@ =~= decimal(n as nat));
        s
    } else {
        let mut s = decimal_string(n / 10);
        s.append(digit_str(n % 10));
        assert(s@ =~= decimal(n as nat));
        s
    }
}

/// The id `<node>-<n>`.
fn make_guid(node: &String, n: usize) -> (r: String)
    ensures
        r@ == guid(node@, n as nat),
{
    let mut g = node.clone();
    g.append("-");
    let digits = decimal_string(n);
    g.append(digits.as_str());
    proof {
        reveal_strlit("-");
    }
    assert(g@ =~= guid(node@, n as nat));
    g
}

/// What `from_init` gives: a node with the id of `init` whose counter
/// starts at 1.
pub open spec fn unique_started(init: Init, n: UniqueNode) -> bool {
    n.counter() == 1 && n.id_view() == init.node_id@
}

/// What one call of `handle` does: from node `pre` to node `post`, given
/// `input`, giving `r`.
pub open spec fn unique_step(
    pre: UniqueNode,
    input: Event<UniquePayload, ()>,
    post: UniqueNode,
    r: Result<Vec<Message<UniquePayload>>, NodeError>,
) -> bool {
    &&& post.id_view() == pre.id_view()
    &&& match input {
        Event::EOF => r is Ok && r->Ok_0@.len() == 0 && post.counter() == pre.counter(),
        Event::Injected(_) => r is Err && r->Err_0 is UnexpectedEvent,
        Event::Message(m) => match m.body.payload {
            UniquePayload::Generate => if pre.counter() == usize::MAX {
                r is Err && r->Err_0 is IdsExhausted
            } else {
                &&& r is Ok && r->Ok_0@.len() == 1
                &&& r->Ok_0@[0].src@ == m.dst@ && r->Ok_0@[0].dst@ == m.src@
                &&& r->Ok_0@[0].body.id == m.body.id && r->Ok_0@[0].body.in_reply_to == m.body.id
                &&& r->Ok_0@[0].body.payload matches UniquePayload::GenerateOk { guid: g }
                    && g@ == guid(pre.id_view(), pre.counter())
                &&& post.counter() == pre.counter() + 1
            },
            UniquePayload::GenerateOk { .. } => r is Ok && r->Ok_0@.len() == 0 && post.counter() == pre.counter(),
        },
    }
}

/// A node that hands out ids made of its own id and a counter, so that no
/// two nodes and no two requests get the same one.
pub struct UniqueNode {
    msg_id: usize,
    node_id: String,
}

impl UniqueNode {
    /// The counter's current value.
    pub closed spec fn counter(&self) -> nat {
        self.msg_id as nat
    }

    pub closed spec fn id_view(&self) -> Seq<char> {
        self.node_id@
    }

    /// A node whose counter starts at 1.
    pub fn from_init(init: Init) -> (r: Self)
        ensures
            unique_started(init, r),
    {
        UniqueNode { node_id: init.node_id, msg_id: 1 }
    }

    /// Answers a generate request with `<node id>-<counter>` and advances
    /// the counter; the answer repeats the request's id both as its own id
    /// and in `in_reply_to`. Answers are ignored, as is the end of input;
    /// an injected event is an error.
    pub fn handle(&mut self, input: Event<UniquePayload, ()>) -> (r: Result<Vec<Message<UniquePayload>>, NodeError>)
        ensures
            unique_step(*old(self), input, *final(self), r),
    {
        let m = match input {
            Event::EOF => return Ok(Vec::new()),
            Event::Injected(_) => return Err(NodeError::UnexpectedEvent),
            Event::Message(m) => m,
        };
        let Message { src, dst, body: Body { id, in_reply_to: _, payload } } = m;
        match payload {
            UniquePayload::Generate => {
                if self.msg_id == usize::MAX {
                    return Err(NodeError::IdsExhausted);
                }
                let guid = make_guid(&self.node_id, self.msg_id);
                let reply = Message {
                    src: dst,
                    dst: src,
                    body: Body { in_reply_to: id, id, payload: UniquePayload::GenerateOk { guid } },
                };
                self.msg_id = self.msg_id + 1;
                Ok(vec![reply])
            },
            UniquePayload::GenerateOk { .. } => Ok(Vec::new()),
        }
    }
}

impl Node<UniquePayload, ()> for UniqueNode {
    open spec fn inv(&self) -> bool {
        true
    }

    open spec fn initialized(init: Init, r: Result<Self, NodeError>) -> bool {
        r matches Ok(n) && unique_started(init, n)
    }

    open spec fn handled(pre: Self, input: Event<UniquePayload, ()>, post: Self, r: Result<Vec<Message<UniquePayload>>, NodeError>) -> bool {
        unique_step(pre, input, post, r)
    }

    fn from_init(init: Init) -> (r: Result<Self, NodeError>) {
        Ok(UniqueNode::from_init(init))
    }

    fn handle(&mut self, input: Event<UniquePayload, ()>) -> (r: Result<Vec<Message<UniquePayload>>, NodeError>) {
        UniqueNode::handle(self, input)
    }
}

} // verus!
