use crate::envelope::{is_reply_to, no_output, one_reply, Body, Event, Init, InjectedPayload, Message, Node, NodeError};
use vstd::prelude::*;

verus! {

broadcast use {vstd::seq_lib::group_seq_properties, Seq::lemma_push_to_set_commute};

/// The messages of the broadcast protocol.
pub enum BroadcastPayload {
    Broadcast { message: usize },
    BroadcastOk,
    Read,
    ReadOk { messages: Vec<usize> },
    /// The cluster's graph: each node id with the ids of its neighbours.
    Topology { topology: Vec<(String, Vec<String>)> },
    TopologyOk,
    Gossip { seen: Vec<usize> },
}

/// The abstract state of a broadcast node.
pub struct BroadcastState {
    pub node_id: Seq<char>,
    /// Every value seen so far.
    pub messages: Set<usize>,
    /// For each peer, values that the peer is known to hold.
    pub known: Map<Seq<char>, Set<usize>>,
    pub neighbours: Seq<Seq<char>>,
}

/// What the peer `n` is known to hold: nothing where it has no entry.
pub open spec fn known_of(known: Map<Seq<char>, Set<usize>>, n: Seq<char>) -> Set<usize> {
    if known.contains_key(n) {
        known[n]
    } else {
        Set::empty()
    }
}

/// The state after a gossip message from `from` carrying `seen`: both the
/// node's values and what it knows of `from` grow by `seen`.
pub open spec fn after_gossip(s: BroadcastState, from: Seq<char>, seen: Set<usize>) -> BroadcastState {
    BroadcastState {
        messages: s.messages.union(seen),
        known: s.known.insert(from, known_of(s.known, from).union(seen)),
        ..s
    }
}

/// The state after a broadcast of `value`.
pub open spec fn after_broadcast(s: BroadcastState, value: usize) -> BroadcastState {
    BroadcastState { messages: s.messages.insert(value), ..s }
}

/// What a tick sends to the neighbour `n`: the values not known to be there.
pub open spec fn delta_for(s: BroadcastState, n: Seq<char>) -> Set<usize> {
    s.messages.difference(known_of(s.known, n))
}

/// A list of node ids as character sequences.
pub open spec fn ids_view(v: Seq<String>) -> Seq<Seq<char>> {
    v.map_values(|x: String| x@)
}

/// The map that a list of (peer, values) entries stands for: a peer holds
/// the values of every entry that names it.
pub open spec fn known_view(k: Seq<(String, Vec<usize>)>) -> Map<Seq<char>, Set<usize>> {
    Map::new(
        |n: Seq<char>| exists|i: int| 0 <= i < k.len() && (#[trigger] k[i]).0@ == n,
        |n: Seq<char>|
            Set::new(
                |v: usize| exists|i: int| 0 <= i < k.len() && (#[trigger] k[i]).0@ == n && k[i].1@.contains(v),
            ),
    )
}

/// `t[i]` is the first entry of the topology `t` for the node `n`.
pub open spec fn first_entry(t: Seq<(String, Vec<String>)>, n: Seq<char>, i: int) -> bool {
    &&& 0 <= i < t.len()
    &&& t[i].0@ == n
    &&& forall|j: int| 0 <= j < i ==> (#[trigger] t[j]).0@ != n
}

/// `m` is the gossip that a node in state `s` sends to `n`.
pub open spec fn is_gossip_to(m: Message<BroadcastPayload>, s: BroadcastState, n: Seq<char>) -> bool {
    &&& m.src@ == s.node_id
    &&& m.dst@ == n
    &&& m.body.id is None
    &&& m.body.in_reply_to is None
    &&& m.body.payload matches BroadcastPayload::Gossip { seen } && seen@.no_duplicates()
        && seen@.to_set() == delta_for(s, n)
}

/// `r` is a success that sends one gossip message to each neighbour of `s`,
/// in order.
pub open spec fn gossip_sent(r: Result<Vec<Message<BroadcastPayload>>, NodeError>, s: BroadcastState) -> bool {
    &&& r is Ok
    &&& r->Ok_0@.len() == s.neighbours.len()
    &&& forall|i: int| 0 <= i < s.neighbours.len() ==> is_gossip_to(#[trigger] r->Ok_0@[i], s, s.neighbours[i])
}

/// A message that is answered with a reply of its own id, which uses up one
/// message id.
pub open spec fn needs_reply(p: BroadcastPayload) -> bool {
    p is Broadcast || p is Read || p is Topology
}

/// `s` has no neighbour that is the node itself.
pub open spec fn no_self_neighbour(s: BroadcastState) -> bool {
    forall|i: int| 0 <= i < s.neighbours.len() ==> #[trigger] s.neighbours[i] != s.node_id
}

/// The list `s` with every occurrence of `x` left out.
pub open spec fn without(s: Seq<Seq<char>>, x: Seq<char>) -> Seq<Seq<char>>
    decreases s.len(),
{
    if s.len() == 0 {
        s
    } else if s.last() == x {
        without(s.drop_last(), x)
    } else {
        without(s.drop_last(), x).push(s.last())
    }
}

/// What handling the inbound message `m` does: from state `s0` with next id
/// `id0` to state `s1` with next id `id1`, giving `r`.
pub open spec fn message_handled(
    s0: BroadcastState,
    id0: nat,
    s1: BroadcastState,
    id1: nat,
    m: Message<BroadcastPayload>,
    r: Result<Vec<Message<BroadcastPayload>>, NodeError>,
) -> bool {
    if needs_reply(m.body.payload) && id0 >= usize::MAX {
        r is Err && r->Err_0 is IdsExhausted && s1 == s0 && id1 == id0
    } else {
        &&& id1 == if needs_reply(m.body.payload) {
            id0 + 1
        } else {
            id0
        }
        &&& match m.body.payload {
            BroadcastPayload::Broadcast { message } => {
                &&& one_reply(r, m, id0)
                &&& r->Ok_0@[0].body.payload is BroadcastOk
                &&& s1 == after_broadcast(s0, message)
            },
            BroadcastPayload::Read => {
                &&& one_reply(r, m, id0)
                &&& match r->Ok_0@[0].body.payload {
                    BroadcastPayload::ReadOk { messages } => messages@.no_duplicates() && messages@.to_set() == s0.messages,
                    _ => false,
                }
                &&& s1 == s0
            },
            BroadcastPayload::Topology { topology } => {
                if exists|i: int| first_entry(topology@, s0.node_id, i) {
                    &&& one_reply(r, m, id0)
                    &&& r->Ok_0@[0].body.payload is TopologyOk
                    &&& exists|i: int| first_entry(topology@, s0.node_id, i)
                        && s1 == (BroadcastState { neighbours: without(ids_view(topology@[i].1@), s0.node_id), ..s0 })
                } else {
                    r is Err && r->Err_0 is NoTopology && s1 == s0
                }
            },
            BroadcastPayload::Gossip { seen } => no_output(r) && s1 == after_gossip(s0, m.src@, seen@.to_set()),
            _ => no_output(r) && s1 == s0,
        }
    }
}

/// What one call of `handle` does: from node `pre` to node `post`, given
/// `input`, giving `r`. The node keeps its id and is never its own
/// neighbour; the end of input changes nothing and sends nothing; a tick
/// sends each neighbour its gossip and changes nothing; an inbound message
/// does what `message_handled` says.
pub open spec fn broadcast_step(
    pre: BroadcastNode,
    input: Event<BroadcastPayload, InjectedPayload>,
    post: BroadcastNode,
    r: Result<Vec<Message<BroadcastPayload>>, NodeError>,
) -> bool {
    &&& post@.node_id == pre@.node_id
    &&& no_self_neighbour(post@)
    &&& match input {
        Event::EOF => no_output(r) && post@ == pre@ && post.next_id() == pre.next_id(),
        Event::Injected(_) => gossip_sent(r, pre@) && post@ == pre@ && post.next_id() == pre.next_id(),
        Event::Message(m) => message_handled(pre@, pre.next_id(), post@, post.next_id(), m, r),
    }
}

/// What `from_init` gives: a node with no values, nothing known of any
/// peer but an empty entry for each node of the cluster, no neighbours, and
/// 1 as its next message id.
pub open spec fn broadcast_started(init: Init, n: BroadcastNode) -> bool {
    &&& n.next_id() == 1
    &&& n@.node_id == init.node_id@
    &&& n@.messages == Set::<usize>::empty()
    &&& n@.known.dom() == ids_view(init.node_ids@).to_set()
    &&& forall|p: Seq<char>| #[trigger] known_of(n@.known, p) == Set::<usize>::empty()
    &&& n@.neighbours == Seq::<Seq<char>>::empty()
}

fn contains_value(v: &Vec<usize>, x: usize) -> (r: bool)
    ensures
        r == v@.contains(x),
{
    let mut i: usize = 0;
    while i < v.len()
        invariant
            i <= v.len(),
            forall|j: int| 0 <= j < i ==> v@[j] != x,
        decreases v.len() - i,
    {
        if v[i] == x {
            return true;
        }
        i = i + 1;
    }
    false
}

/// Adds `x` to a list without duplicates, unless it is there already.
fn insert_value(v: &mut Vec<usize>, x: usize)
    requires
        old(v)@.no_duplicates(),
    ensures
        final(v)@.no_duplicates(),
        final(v)@.to_set() == old(v)@.to_set().insert(x),
{
    let ghost v0 = v@;
    if !contains_value(v, x) {
        v.push(x);
        assert forall|a: int, b: int| 0 <= a < b < v@.len() implies v@[a] != v@[b] by {
            if b == v@.len() - 1 {
                assert(v0.contains(v0[a]));
            }
        }
    } else {
        assert(v0.to_set() =~= v0.to_set().insert(x));
    }
}

fn copy_values(v: &Vec<usize>) -> (r: Vec<usize>)
    ensures
        r@ == v@,
{
    let mut r: Vec<usize> = Vec::new();
    let mut i: usize = 0;
    while i < v.len()
        invariant
            i <= v.len(),
            r@ == v@.take(i as int),
        decreases v.len() - i,
    {
        r.push(v[i]);
        i = i + 1;
        assert(r@ =~= v@.take(i as int));
    }
    assert(v@.take(v.len() as int) =~= v@);
    r
}

/// Whether the entries `k` say that the peer `n` holds `m`.
fn known_holds(k: &Vec<(String, Vec<usize>)>, n: &String, m: usize) -> (r: bool)
    ensures
        r == known_of(known_view(k@), n@).contains(m),
{
    let mut i: usize = 0;
    while i < k.len()
        invariant
            i <= k.len(),
            forall|j: int| 0 <= j < i ==> !((#[trigger] k@[j]).0@ == n@ && k@[j].1@.contains(m)),
        decreases k.len() - i,
    {
        if k[i].0 == *n && contains_value(&k[i].1, m) {
            assert(known_view(k@).contains_key(n@));
            return true;
        }
        i = i + 1;
    }
    false
}

proof fn lemma_known_extend(k0: Seq<(String, Vec<usize>)>, j: int, seen: Seq<usize>)
    requires
        0 <= j < k0.len(),
    ensures
        forall|e: (String, Vec<usize>)| e.0@ == k0[j].0@ && e.1@ == k0[j].1@ + seen ==>
            #[trigger] known_view(k0.update(j, e)) =~= known_view(k0).insert(
                k0[j].0@,
                known_of(known_view(k0), k0[j].0@).union(seen.to_set()),
            ),
{
    assert forall|e: (String, Vec<usize>)| e.0@ == k0[j].0@ && e.1@ == k0[j].1@ + seen implies
        #[trigger] known_view(k0.update(j, e)) =~= known_view(k0).insert(
            k0[j].0@,
            known_of(known_view(k0), k0[j].0@).union(seen.to_set()),
        ) by {
        let k1 = k0.update(j, e);
        let from = k0[j].0@;
        let lhs = known_view(k1);
        let rhs = known_view(k0).insert(from, known_of(known_view(k0), from).union(seen.to_set()));
        assert(known_view(k0).contains_key(from));
        assert forall|n: Seq<char>| lhs.contains_key(n) <==> rhs.contains_key(n) by {
            if lhs.contains_key(n) {
                let i = choose|i: int| 0 <= i < k1.len() && (#[trigger] k1[i]).0@ == n;
                assert(k0[i].0@ == n);
            }
            if rhs.contains_key(n) && n != from {
                let i = choose|i: int| 0 <= i < k0.len() && (#[trigger] k0[i]).0@ == n;
                assert(k1[i].0@ == n);
            }
            if n == from {
                assert(k1[j].0@ == n);
            }
        }
        assert forall|n: Seq<char>| lhs.contains_key(n) implies lhs[n] =~= rhs[n] by {
            assert forall|v: usize| lhs[n].contains(v) <==> rhs[n].contains(v) by {
                if lhs[n].contains(v) {
                    let i = choose|i: int| 0 <= i < k1.len() && (#[trigger] k1[i]).0@ == n && k1[i].1@.contains(v);
                    if i != j {
                        assert(k0[i].0@ == n && k0[i].1@.contains(v));
                    } else {
                        let w = choose|w: int| 0 <= w < e.1@.len() && e.1@[w] == v;
                        if w < k0[j].1@.len() {
                            assert(k0[j].1@[w] == v);
                            assert(k0[j].1@.contains(v));
                        } else {
                            assert(seen[w - k0[j].1@.len()] == v);
                        }
                    }
                }
                if rhs[n].contains(v) {
                    if n == from && seen.contains(v) {
                        let w = choose|w: int| 0 <= w < seen.len() && seen[w] == v;
                        assert(e.1@[k0[j].1@.len() + w] == v);
                        assert(k1[j].1@.contains(v));
                    } else {
                        let i = choose|i: int| 0 <= i < k0.len() && (#[trigger] k0[i]).0@ == n && k0[i].1@.contains(v);
                        if i == j {
                            let w = choose|w: int| 0 <= w < k0[j].1@.len() && k0[j].1@[w] == v;
                            assert(e.1@[w] == v);
                            assert(k1[j].1@.contains(v));
                        } else {
                            assert(k1[i].1@.contains(v));
                        }
                    }
                }
            }
        }
        assert(lhs =~= rhs);
    }
}

proof fn lemma_known_push(k0: Seq<(String, Vec<usize>)>, e: (String, Vec<usize>), from: Seq<char>, seen: Seq<usize>)
    requires
        forall|l: int| 0 <= l < k0.len() ==> (#[trigger] k0[l]).0@ != from,
        e.0@ == from,
        e.1@ == seen,
    ensures
        known_view(k0.push(e)) =~= known_view(k0).insert(from, known_of(known_view(k0), from).union(seen.to_set())),
{
    let k1 = k0.push(e);
    let lhs = known_view(k1);
    let rhs = known_view(k0).insert(from, known_of(known_view(k0), from).union(seen.to_set()));
    assert(!known_view(k0).contains_key(from));
    assert(k1[k0.len() as int] == e);
    assert forall|n: Seq<char>| lhs.contains_key(n) <==> rhs.contains_key(n) by {
        if lhs.contains_key(n) && n != from {
            let i = choose|i: int| 0 <= i < k1.len() && (#[trigger] k1[i]).0@ == n;
            assert(k0[i].0@ == n);
        }
        if rhs.contains_key(n) && n != from {
            let i = choose|i: int| 0 <= i < k0.len() && (#[trigger] k0[i]).0@ == n;
            assert(k1[i].0@ == n);
        }
    }
    assert forall|n: Seq<char>| lhs.contains_key(n) implies lhs[n] =~= rhs[n] by {
        assert forall|v: usize| lhs[n].contains(v) <==> rhs[n].contains(v) by {
            if lhs[n].contains(v) {
                let i = choose|i: int| 0 <= i < k1.len() && (#[trigger] k1[i]).0@ == n && k1[i].1@.contains(v);
                if i < k0.len() {
                    assert(k0[i].0@ == n && k0[i].1@.contains(v));
                }
            }
            if rhs[n].contains(v) && n != from {
                let i = choose|i: int| 0 <= i < k0.len() && (#[trigger] k0[i]).0@ == n && k0[i].1@.contains(v);
                assert(k1[i].1@.contains(v));
            }
            if rhs[n].contains(v) && n == from {
                assert(k1[k0.len() as int].1@.contains(v));
            }
        }
    }
    assert(lhs =~= rhs);
}

/// The ids of `v` other than `n`, in order.
fn copy_ids_without(v: &Vec<String>, n: &String) -> (r: Vec<String>)
    ensures
        ids_view(r@) == without(ids_view(v@), n@),
        forall|j: int| 0 <= j < r@.len() ==> (#[trigger] r@[j])@ != n@,
{
    let mut r: Vec<String> = Vec::new();
    let mut i: usize = 0;
    while i < v.len()
        invariant
            i <= v.len(),
            ids_view(r@) == without(ids_view(v@.take(i as int)), n@),
            forall|j: int| 0 <= j < r@.len() ==> (#[trigger] r@[j])@ != n@,
        decreases v.len() - i,
    {
        let ghost before = r@;
        assert(ids_view(v@.take(i as int + 1)).drop_last() =~= ids_view(v@.take(i as int)));
        assert(ids_view(v@.take(i as int + 1)).last() == v@[i as int]@);
        if !(v[i] == *n) {
            let x = v[i].clone();
            r.push(x);
            assert(ids_view(r@) =~= ids_view(before).push(v@[i as int]@));
        }
        i = i + 1;
    }
    assert(v@.take(i as int) =~= v@);
    r
}

/// The neighbours that the first entry of `t` for `n` lists, other than
/// `n` itself, if there is such an entry.
fn neighbours_in(t: &Vec<(String, Vec<String>)>, n: &String) -> (r: Option<Vec<String>>)
    ensures
        r is None <==> forall|i: int| 0 <= i < t@.len() ==> (#[trigger] t@[i]).0@ != n@,
        r matches Some(v) ==> exists|i: int| first_entry(t@, n@, i) && ids_view(v@) == without(ids_view(t@[i].1@), n@),
        r matches Some(v) ==> forall|j: int| 0 <= j < v@.len() ==> (#[trigger] v@[j])@ != n@,
{
    let mut i: usize = 0;
    while i < t.len()
        invariant
            i <= t.len(),
            forall|j: int| 0 <= j < i ==> (#[trigger] t@[j]).0@ != n@,
        decreases t.len() - i,
    {
        if t[i].0 == *n {
            let v = copy_ids_without(&t[i].1, n);
            assert(first_entry(t@, n@, i as int));
            return Some(v);
        }
        i = i + 1;
    }
    None
}

/// A node of the broadcast protocol: it keeps every value it has seen and
/// gossips to its neighbours what they are not known to hold.
pub struct BroadcastNode {
    msg_id: usize,
    node_id: String,
    messages: Vec<usize>,
    known: Vec<(String, Vec<usize>)>,
    neighbour: Vec<String>,
}

impl View for BroadcastNode {
    type V = BroadcastState;

    closed spec fn view(&self) -> BroadcastState {
        BroadcastState {
            node_id: self.node_id@,
            messages: self.messages@.to_set(),
            known: known_view(self.known@),
            neighbours: ids_view(self.neighbour@),
        }
    }
}

impl BroadcastNode {
    /// The list of values holds each value once, and the node is not its own
    /// neighbour.
    pub closed spec fn wf(&self) -> bool {
        &&& self.messages@.no_duplicates()
        &&& forall|i: int| 0 <= i < self.neighbour@.len() ==> (#[trigger] self.neighbour@[i])@ != self.node_id@
    }

    /// The id that the next reply will carry.
    pub closed spec fn next_id(&self) -> nat {
        self.msg_id as nat
    }

    /// The values that the neighbour `n` is not known to hold, each once.
    fn delta(&self, n: &String) -> (r: Vec<usize>)
        requires
            self.wf(),
        ensures
            r@.no_duplicates(),
            r@.to_set() == delta_for(self@, n@),
    {
        let mut r: Vec<usize> = Vec::new();
        let mut i: usize = 0;
        while i < self.messages.len()
            invariant
                self.wf(),
                i <= self.messages.len(),
                r@.no_duplicates(),
                forall|x: usize| r@.contains(x) <==> (self.messages@.take(i as int).contains(x)
                    && !known_of(self@.known, n@).contains(x)),
            decreases self.messages.len() - i,
        {
            let x = self.messages[i];
            let ghost r0 = r@;
            assert(self.messages@.take(i as int + 1) =~= self.messages@.take(i as int).push(x));
            if !known_holds(&self.known, n, x) {
                assert(!self.messages@.take(i as int).contains(x));
                r.push(x);
                assert forall|a: int, b: int| 0 <= a < b < r@.len() implies r@[a] != r@[b] by {
                    if b == r@.len() - 1 {
                        assert(r0.contains(r0[a]));
                    }
                }
            }
            i = i + 1;
        }
        assert(self.messages@.take(i as int) =~= self.messages@);
        assert(r@.to_set() =~= delta_for(self@, n@));
        r
    }

    /// Takes in a gossip message from `from`: its values join the node's
    /// and what the node knows `from` to hold.
    fn receive_gossip(&mut self, from: &String, seen: &Vec<usize>)
        requires
            old(self).wf(),
        ensures
            final(self).wf(),
            final(self).next_id() == old(self).next_id(),
            final(self)@ == after_gossip(old(self)@, from@, seen@.to_set()),
    {
        let ghost s0 = self@;
        let mut i: usize = 0;
        while i < seen.len()
            invariant
                self.wf(),
                i <= seen.len(),
                self.msg_id == old(self).msg_id,
                self.node_id == old(self).node_id,
                self.known == old(self).known,
                self.neighbour == old(self).neighbour,
                self@.messages == s0.messages.union(seen@.take(i as int).to_set()),
            decreases seen.len() - i,
        {
            let x = seen[i];
            let ghost m0 = self.messages@;
            if !contains_value(&self.messages, x) {
                self.messages.push(x);
                assert forall|a: int, b: int| 0 <= a < b < self.messages@.len() implies self.messages@[a] != self.messages@[b] by {
                    if b == self.messages@.len() - 1 {
                        assert(m0.contains(m0[a]));
                    }
                }
                assert(self@.messages == m0.to_set().insert(x));
            } else {
                assert(m0.to_set() =~= m0.to_set().insert(x));
            }
            assert(seen@.take(i as int + 1) =~= seen@.take(i as int).push(x));
            i = i + 1;
            assert(self@.messages =~= s0.messages.union(seen@.take(i as int).to_set()));
        }
        assert(seen@.take(i as int) =~= seen@);
        let mut j: usize = 0;
        while j < self.known.len() && !(self.known[j].0 == *from)
            invariant
                j <= self.known.len(),
                forall|l: int| 0 <= l < j ==> (#[trigger] self.known@[l]).0@ != from@,
            decreases self.known.len() - j,
        {
            j = j + 1;
        }
        let ghost k0 = self.known@;
        if j < self.known.len() {
            let mut vals = copy_values(&self.known[j].1);
            let mut l: usize = 0;
            while l < seen.len()
                invariant
                    l <= seen.len(),
                    j < self.known.len(),
                    self.known@ == k0,
                    vals@ == k0[j as int].1@ + seen@.take(l as int),
                decreases seen.len() - l,
            {
                vals.push(seen[l]);
                l = l + 1;
                assert(vals@ =~= k0[j as int].1@ + seen@.take(l as int));
            }
            assert(seen@.take(l as int) =~= seen@);
            let key = self.known[j].0.clone();
            self.known.set(j, (key, vals));
            proof {
                lemma_known_extend(k0, j as int, seen@);
            }
        } else {
            self.known.push((from.clone(), copy_values(seen)));
            proof {
                lemma_known_push(k0, self.known@.last(), from@, seen@);
            }
        }
        assert(self@.known =~= s0.known.insert(from@, known_of(s0.known, from@).union(seen@.to_set())));
        assert(self@ =~= after_gossip(s0, from@, seen@.to_set()));
    }

    /// One gossip message for each neighbour, in order, with what that
    /// neighbour is not known to hold.
    fn gossip(&self) -> (out: Vec<Message<BroadcastPayload>>)
        requires
            self.wf(),
        ensures
            out@.len() == self@.neighbours.len(),
            forall|i: int| 0 <= i < out@.len() ==> is_gossip_to(#[trigger] out@[i], self@, self@.neighbours[i]),
    {
        let mut out: Vec<Message<BroadcastPayload>> = Vec::new();
        let mut i: usize = 0;
        while i < self.neighbour.len()
            invariant
                self.wf(),
                i <= self.neighbour.len(),
                out@.len() == i,
                forall|j: int| 0 <= j < i ==> is_gossip_to(#[trigger] out@[j], self@, self@.neighbours[j]),
            decreases self.neighbour.len() - i,
        {
            let n = &self.neighbour[i];
            let seen = self.delta(n);
            out.push(Message {
                src: self.node_id.clone(),
                dst: n.clone(),
                body: Body { id: None, in_reply_to: None, payload: BroadcastPayload::Gossip { seen } },
            });
            i = i + 1;
        }
        out
    }

    /// Handles one event and returns the envelopes to send.
    ///
    /// Every message that is answered uses up one message id; the others
    /// take none. A broadcast adds its value and is acknowledged; a read is
    /// answered with every value seen; a topology sets the neighbours to
    /// the node's own entry, less the node itself, and fails where there is
    /// none; a gossip message adds its values and is not answered; replies
    /// are ignored. A tick
    /// sends each neighbour the values it is not known to hold; the end of
    /// input does nothing.
    pub fn handle(&mut self, input: Event<BroadcastPayload, InjectedPayload>) -> (r: Result<
        Vec<Message<BroadcastPayload>>,
        NodeError,
    >)
        requires
            old(self).wf(),
        ensures
            final(self).wf(),
            broadcast_step(*old(self), input, *final(self), r),
    {
        let r = match input {
            Event::EOF => Ok(Vec::new()),
            Event::Injected(InjectedPayload::Gossip) => Ok(self.gossip()),
            Event::Message(m) => self.handle_message(m),
        };
        proof {
            self.lemma_wf_no_self_neighbour();
        }
        r
    }

    proof fn lemma_wf_no_self_neighbour(&self)
        requires
            self.wf(),
        ensures
            no_self_neighbour(self@),
    {
        assert forall|i: int| 0 <= i < self@.neighbours.len() implies #[trigger] self@.neighbours[i] != self@.node_id by {
            assert(self.neighbour@[i]@ != self.node_id@);
        }
    }

    fn handle_message(&mut self, m: Message<BroadcastPayload>) -> (r: Result<Vec<Message<BroadcastPayload>>, NodeError>)
        requires
            old(self).wf(),
        ensures
            final(self).wf(),
            final(self)@.node_id == old(self)@.node_id,
            message_handled(old(self)@, old(self).next_id(), final(self)@, final(self).next_id(), m, r),
    {
        let needs = match &m.body.payload {
            BroadcastPayload::Broadcast { .. } => true,
            BroadcastPayload::Read => true,
            BroadcastPayload::Topology { .. } => true,
            _ => false,
        };
        if needs && self.msg_id == usize::MAX {
            return Err(NodeError::IdsExhausted);
        }
        let ghost s0 = self@;
        let ghost id0 = self.next_id();
        let ghost req = m;
        let reply = if needs {
            m.into_reply(Some(&mut self.msg_id))
        } else {
            m.into_reply(None)
        };
        let Message { src, dst, body: Body { id, in_reply_to, payload } } = reply;
        let r = match payload {
            BroadcastPayload::Gossip { seen } => {
                self.receive_gossip(&dst, &seen);
                Ok(Vec::new())
            },
            BroadcastPayload::Broadcast { message } => {
                insert_value(&mut self.messages, message);
                assert(self@ =~= after_broadcast(s0, message));
                let payload = BroadcastPayload::BroadcastOk;
                let out = vec![Message { src, dst, body: Body { id, in_reply_to, payload } }];
                assert(is_reply_to(out@[0], req, id0));
                Ok(out)
            },
            BroadcastPayload::Read => {
                let payload = BroadcastPayload::ReadOk { messages: copy_values(&self.messages) };
                let out = vec![Message { src, dst, body: Body { id, in_reply_to, payload } }];
                assert(is_reply_to(out@[0], req, id0));
                Ok(out)
            },
            BroadcastPayload::Topology { topology } => {
                match neighbours_in(&topology, &self.node_id) {
                    Some(v) => {
                        self.neighbour = v;
                        let payload = BroadcastPayload::TopologyOk;
                        let out = vec![Message { src, dst, body: Body { id, in_reply_to, payload } }];
                        assert(is_reply_to(out@[0], req, id0));
                        let ghost i = choose|i: int| first_entry(topology@, s0.node_id, i) && ids_view(v@) == without(ids_view(topology@[i].1@), s0.node_id);
                        assert(self@ == (BroadcastState { neighbours: without(ids_view(topology@[i].1@), s0.node_id), ..s0 }));
                        Ok(out)
                    },
                    None => {
                        assert(!exists|i: int| first_entry(topology@, s0.node_id, i));
                        Err(NodeError::NoTopology)
                    },
                }
            },
            BroadcastPayload::ReadOk { .. } => Ok(Vec::new()),
            BroadcastPayload::TopologyOk => Ok(Vec::new()),
            BroadcastPayload::BroadcastOk => Ok(Vec::new()),
        };
        assert(message_handled(s0, id0, self@, self.next_id(), req, r));
        r
    }

    /// A node with no values, nothing known of any peer, and no neighbours
    /// until a topology arrives.
    pub fn from_init(init: Init) -> (r: Self)
        ensures
            r.wf(),
            broadcast_started(init, r),
    {
        let mut known: Vec<(String, Vec<usize>)> = Vec::new();
        let mut i: usize = 0;
        while i < init.node_ids.len()
            invariant
                i <= init.node_ids.len(),
                known@.len() == i,
                forall|j: int| 0 <= j < i ==> (#[trigger] known@[j]).0@ == init.node_ids@[j]@ && known@[j].1@.len() == 0,
            decreases init.node_ids.len() - i,
        {
            known.push((init.node_ids[i].clone(), Vec::new()));
            i = i + 1;
        }
        let r = BroadcastNode {
            msg_id: 1,
            node_id: init.node_id,
            messages: Vec::new(),
            known,
            neighbour: Vec::new(),
        };
        assert(r@.known.dom() =~= ids_view(init.node_ids@).to_set()) by {
            assert forall|n: Seq<char>| r@.known.dom().contains(n) implies ids_view(init.node_ids@).to_set().contains(n) by {
                let i = choose|i: int| 0 <= i < r.known@.len() && (#[trigger] r.known@[i]).0@ == n;
                assert(ids_view(init.node_ids@)[i] == n);
            }
            assert forall|n: Seq<char>| ids_view(init.node_ids@).to_set().contains(n) implies r@.known.dom().contains(n) by {
                let i = choose|i: int| 0 <= i < ids_view(init.node_ids@).len() && ids_view(init.node_ids@)[i] == n;
                assert(r.known@[i].0@ == n);
            }
        }
        assert forall|n: Seq<char>| #[trigger] known_of(r@.known, n) == Set::<usize>::empty() by {
            assert(known_of(r@.known, n) =~= Set::<usize>::empty());
        }
        assert(r@.neighbours =~= Seq::<Seq<char>>::empty());
        assert(r@.messages =~= Set::<usize>::empty());
        assert(broadcast_started(init, r));
        r
    }
}

/// Taking in the same gossip twice leaves the node as taking it in once.
pub proof fn lemma_gossip_idempotent(s: BroadcastState, from: Seq<char>, seen: Set<usize>)
    ensures
        after_gossip(after_gossip(s, from, seen), from, seen) == after_gossip(s, from, seen),
{
    let once = after_gossip(s, from, seen);
    let twice = after_gossip(once, from, seen);
    assert(known_of(once.known, from) =~= known_of(s.known, from).union(seen));
    assert(known_of(once.known, from).union(seen) =~= known_of(once.known, from));
    assert(twice.known =~= once.known);
    assert(twice.messages =~= once.messages);
}

/// Two gossip messages leave the node in the same state in either order.
pub proof fn lemma_gossip_commutes(s: BroadcastState, f1: Seq<char>, x1: Set<usize>, f2: Seq<char>, x2: Set<usize>)
    ensures
        after_gossip(after_gossip(s, f1, x1), f2, x2) == after_gossip(after_gossip(s, f2, x2), f1, x1),
{
    let a = after_gossip(after_gossip(s, f1, x1), f2, x2);
    let b = after_gossip(after_gossip(s, f2, x2), f1, x1);
    assert(a.messages =~= b.messages);
    assert forall|n: Seq<char>| a.known.contains_key(n) implies a.known[n] =~= b.known[n] by {}
    assert(a.known =~= b.known);
}

/// No inbound message that a node handles takes a value away from it, nor
/// from what it knows of any peer; one that fails changes nothing.
pub proof fn lemma_handled_monotone(
    s0: BroadcastState,
    id0: nat,
    s1: BroadcastState,
    id1: nat,
    m: Message<BroadcastPayload>,
    r: Result<Vec<Message<BroadcastPayload>>, NodeError>,
)
    requires
        message_handled(s0, id0, s1, id1, m, r),
    ensures
        s0.messages.subset_of(s1.messages),
        forall|n: Seq<char>| #[trigger] known_of(s0.known, n).subset_of(known_of(s1.known, n)),
        r is Err ==> s1 == s0,
{
    if id0 < usize::MAX {
        match m.body.payload {
            BroadcastPayload::Topology { topology } => {
                if exists|i: int| first_entry(topology@, s0.node_id, i) {
                    let i = choose|i: int| first_entry(topology@, s0.node_id, i)
                        && s1 == (BroadcastState { neighbours: ids_view(topology@[i].1@), ..s0 });
                }
            },
            _ => {},
        }
    }
}

/// Once `b` takes in the gossip that `a` sends it, `b` holds every value of
/// `a`, provided that what `a` knows `b` to hold is indeed held by `b`.
pub proof fn lemma_gossip_delivers(a: BroadcastState, b: BroadcastState)
    requires
        known_of(a.known, b.node_id).subset_of(b.messages),
    ensures
        a.messages.subset_of(after_gossip(b, a.node_id, delta_for(a, b.node_id)).messages),
{
}

/// What `a` records of `b` stays within what `b` holds when `a` takes in
/// gossip from `b`: a node only sends values it holds, and never loses one.
pub proof fn lemma_known_stays_held(a: BroadcastState, b: BroadcastState, n: Seq<char>)
    requires
        known_of(a.known, b.node_id).subset_of(b.messages),
    ensures
        delta_for(b, n).subset_of(b.messages),
        known_of(after_gossip(a, b.node_id, delta_for(b, n)).known, b.node_id).subset_of(b.messages),
{
}

/// Two nodes that send each other their gossip in the same round and take
/// in what the other sent end up with the same values: all that either
/// held. This holds as long as what each knows of the other is held there.
pub proof fn lemma_exchange_agrees(a: BroadcastState, b: BroadcastState)
    requires
        known_of(a.known, b.node_id).subset_of(b.messages),
        known_of(b.known, a.node_id).subset_of(a.messages),
    ensures
        after_gossip(b, a.node_id, delta_for(a, b.node_id)).messages == a.messages.union(b.messages),
        after_gossip(a, b.node_id, delta_for(b, a.node_id)).messages == a.messages.union(b.messages),
{
    assert(after_gossip(b, a.node_id, delta_for(a, b.node_id)).messages =~= a.messages.union(b.messages));
    assert(after_gossip(a, b.node_id, delta_for(b, a.node_id)).messages =~= a.messages.union(b.messages));
}

/// Gossip takes no message id and always succeeds. Handling the same gossip
/// message a second time leaves the node's values,
/// what it knows of its peers and its neighbours as the first time did, and
/// sends nothing.
pub proof fn lemma_handled_gossip_twice(
    s0: BroadcastState,
    id0: nat,
    s1: BroadcastState,
    id1: nat,
    s2: BroadcastState,
    id2: nat,
    m: Message<BroadcastPayload>,
    r1: Result<Vec<Message<BroadcastPayload>>, NodeError>,
    r2: Result<Vec<Message<BroadcastPayload>>, NodeError>,
)
    requires
        m.body.payload is Gossip,
        message_handled(s0, id0, s1, id1, m, r1),
        message_handled(s1, id1, s2, id2, m, r2),
    ensures
        s2 == s1,
        no_output(r1),
        no_output(r2),
        id2 == id1 && id1 == id0,
{
    lemma_gossip_idempotent(s0, m.src@, m.body.payload->seen@.to_set());
}

/// Whatever a node sends in answer to an inbound message names that
/// message's id in `in_reply_to` and goes back to its sender.
pub proof fn lemma_replies_correlate(
    s0: BroadcastState,
    id0: nat,
    s1: BroadcastState,
    id1: nat,
    m: Message<BroadcastPayload>,
    r: Result<Vec<Message<BroadcastPayload>>, NodeError>,
)
    requires
        message_handled(s0, id0, s1, id1, m, r),
        r is Ok,
    ensures
        forall|i: int| 0 <= i < r->Ok_0@.len() ==> (#[trigger] r->Ok_0@[i]).body.in_reply_to == m.body.id
            && r->Ok_0@[i].dst@ == m.src@,
{
}

impl Node<BroadcastPayload, InjectedPayload> for BroadcastNode {
    open spec fn inv(&self) -> bool {
        self.wf()
    }

    open spec fn initialized(init: Init, r: Result<Self, NodeError>) -> bool {
        r matches Ok(n) && broadcast_started(init, n)
    }

    open spec fn handled(
        pre: Self,
        input: Event<BroadcastPayload, InjectedPayload>,
        post: Self,
        r: Result<Vec<Message<BroadcastPayload>>, NodeError>,
    ) -> bool {
        broadcast_step(pre, input, post, r)
    }

    fn from_init(init: Init) -> (r: Result<Self, NodeError>) {
        Ok(BroadcastNode::from_init(init))
    }

    fn handle(&mut self, input: Event<BroadcastPayload, InjectedPayload>) -> (r: Result<
        Vec<Message<BroadcastPayload>>,
        NodeError,
    >) {
        BroadcastNode::handle(self, input)
    }
}

} // verus!
