use crate::broadcast::ids_view;
use crate::envelope::{is_reply_to, no_output, one_reply, Body, Event, Init, InjectedPayload, Message, Node, NodeError};
use vstd::prelude::*;

verus! {

broadcast use vstd::seq_lib::group_seq_properties;

/// The messages of the grow-only counter protocol.
pub enum CounterPayload {
    Add { delta: usize },
    AddOk,
    Read,
    ReadOk { value: usize },
    /// Best-known counts, each with the node it belongs to.
    Gossip { values: Vec<(String, usize)> },
}

/// The abstract state of a counter node.
pub struct CounterState {
    pub node_id: Seq<char>,
    /// The sum of the deltas added at this node.
    pub local: nat,
    /// The best-known count of other nodes, one entry per node.
    pub known: Seq<(Seq<char>, nat)>,
    pub neighbours: Seq<Seq<char>>,
}

/// A list of (node id, count) entries as character sequences and naturals.
pub open spec fn counts_view(v: Seq<(String, usize)>) -> Seq<(Seq<char>, nat)> {
    v.map_values(|e: (String, usize)| (e.0@, e.1 as nat))
}

/// No node has two entries.
pub open spec fn unique_keys(k: Seq<(Seq<char>, nat)>) -> bool {
    forall|a: int, b: int| 0 <= a < b < k.len() ==> (#[trigger] k[a]).0 != (#[trigger] k[b]).0
}

/// The count that `k` holds for `n`: that of its last entry for `n`, or 0.
pub open spec fn count_of(k: Seq<(Seq<char>, nat)>, n: Seq<char>) -> nat
    decreases k.len(),
{
    if k.len() == 0 {
        0
    } else if k.last().0 == n {
        k.last().1
    } else {
        count_of(k.drop_last(), n)
    }
}

/// The largest count that `k` holds for `n`, or 0.
pub open spec fn max_for(k: Seq<(Seq<char>, nat)>, n: Seq<char>) -> nat
    decreases k.len(),
{
    if k.len() == 0 {
        0
    } else {
        let rest = max_for(k.drop_last(), n);
        if k.last().0 == n && k.last().1 > rest {
            k.last().1
        } else {
            rest
        }
    }
}

/// The sum of all counts in `k`.
pub open spec fn total(k: Seq<(Seq<char>, nat)>) -> nat
    decreases k.len(),
{
    if k.len() == 0 {
        0
    } else {
        total(k.drop_last()) + k.last().1
    }
}

/// The value that a node in state `s` reads: its own deltas and the best
/// known count of every other node.
pub open spec fn read_value(s: CounterState) -> nat {
    s.local + total(s.known)
}

/// What a counter node keeps true: each node has at most one entry, and the
/// node itself none, so that its own count is read once, from `local`.
pub open spec fn counter_inv(s: CounterState) -> bool {
    &&& unique_keys(s.known)
    &&& forall|i: int| 0 <= i < s.known.len() ==> (#[trigger] s.known[i]).0 != s.node_id
}

/// The count for `n` after the gossip `vals` is merged into `s`: the larger
/// of the old and the incoming one, except for the node itself, whose entry
/// is left as it was.
pub open spec fn merged_count(s: CounterState, vals: Seq<(Seq<char>, nat)>, n: Seq<char>) -> nat {
    if n == s.node_id {
        count_of(s.known, n)
    } else {
        let a = count_of(s.known, n);
        let b = max_for(vals, n);
        if a >= b {
            a
        } else {
            b
        }
    }
}

/// `s1` is `s0` with the gossip `vals` merged in.
pub open spec fn merged(s0: CounterState, vals: Seq<(Seq<char>, nat)>, s1: CounterState) -> bool {
    &&& s1.node_id == s0.node_id
    &&& s1.local == s0.local
    &&& s1.neighbours == s0.neighbours
    &&& counter_inv(s1)
    &&& forall|n: Seq<char>| #[trigger] count_of(s1.known, n) == merged_count(s0, vals, n)
}

/// How many successors on the ring a node of a cluster of `n` gossips to.
pub open spec fn fanout(n: nat) -> nat {
    if n / 2 < 1 {
        1
    } else if n / 2 > 3 {
        3
    } else {
        n / 2
    }
}

/// The `fanout` nodes that follow position `index` on the ring `ids`.
pub open spec fn ring_neighbours(ids: Seq<Seq<char>>, index: int) -> Seq<Seq<char>> {
    Seq::new(fanout(ids.len()), |i: int| ids[(index + i + 1) % (ids.len() as int)])
}

/// `m` is the gossip that a node in state `s` sends to `n`: its known
/// counts with its own count last.
pub open spec fn is_count_gossip_to(m: Message<CounterPayload>, s: CounterState, n: Seq<char>) -> bool {
    &&& m.src@ == s.node_id
    &&& m.dst@ == n
    &&& m.body.id is None
    &&& m.body.in_reply_to is None
    &&& m.body.payload matches CounterPayload::Gossip { values }
        && counts_view(values@) == s.known.push((s.node_id, s.local))
}

proof fn lemma_count_of_unique(k: Seq<(Seq<char>, nat)>, j: int)
    requires
        unique_keys(k),
        0 <= j < k.len(),
    ensures
        count_of(k, k[j].0) == k[j].1,
    decreases k.len(),
{
    if j < k.len() - 1 {
        assert(k.drop_last()[j] == k[j]);
        assert(k.last().0 != k[j].0);
        lemma_count_of_unique(k.drop_last(), j);
    }
}

proof fn lemma_count_of_absent(k: Seq<(Seq<char>, nat)>, n: Seq<char>)
    requires
        forall|i: int| 0 <= i < k.len() ==> (#[trigger] k[i]).0 != n,
    ensures
        count_of(k, n) == 0,
    decreases k.len(),
{
    if k.len() > 0 {
        assert(k.last() == k[k.len() - 1]);
        assert forall|i: int| 0 <= i < k.drop_last().len() implies (#[trigger] k.drop_last()[i]).0 != n by {
            assert(k.drop_last()[i] == k[i]);
        }
        lemma_count_of_absent(k.drop_last(), n);
    }
}

proof fn lemma_count_of_other(k: Seq<(Seq<char>, nat)>, j: int, e: (Seq<char>, nat), n: Seq<char>)
    requires
        0 <= j < k.len(),
        e.0 == k[j].0,
        n != k[j].0,
    ensures
        count_of(k.update(j, e), n) == count_of(k, n),
    decreases k.len(),
{
    let k1 = k.update(j, e);
    if j == k.len() - 1 {
        assert(k1.drop_last() =~= k.drop_last());
    } else {
        assert(k1.drop_last() =~= k.drop_last().update(j, e));
        lemma_count_of_other(k.drop_last(), j, e, n);
    }
}

proof fn lemma_total_prefix(k: Seq<(Seq<char>, nat)>, i: int)
    requires
        0 <= i <= k.len(),
    ensures
        total(k.take(i)) <= total(k),
    decreases k.len(),
{
    if i < k.len() {
        assert(k.drop_last().take(i) =~= k.take(i));
        lemma_total_prefix(k.drop_last(), i);
    } else {
        assert(k.take(i) =~= k);
    }
}

proof fn lemma_max_step(vals: Seq<(String, usize)>, i: int, n: Seq<char>)
    requires
        0 <= i < vals.len(),
    ensures
        max_for(counts_view(vals.take(i + 1)), n) == if vals[i].0@ == n && vals[i].1 as nat > max_for(
            counts_view(vals.take(i)),
            n,
        ) {
            vals[i].1 as nat
        } else {
            max_for(counts_view(vals.take(i)), n)
        },
{
    assert(counts_view(vals.take(i + 1)).drop_last() =~= counts_view(vals.take(i)));
}

/// A message that is answered with a reply of its own id, which uses up one
/// message id.
pub open spec fn count_needs_reply(p: CounterPayload) -> bool {
    p is Add || p is Read
}

/// What handling the inbound message `m` does: from state `s0` with next id
/// `id0` to state `s1` with next id `id1`, giving `r`.
pub open spec fn count_message_handled(
    s0: CounterState,
    id0: nat,
    s1: CounterState,
    id1: nat,
    m: Message<CounterPayload>,
    r: Result<Vec<Message<CounterPayload>>, NodeError>,
) -> bool {
    if count_needs_reply(m.body.payload) && id0 >= usize::MAX {
        r is Err && r->Err_0 is IdsExhausted && s1 == s0 && id1 == id0
    } else {
        &&& id1 == if count_needs_reply(m.body.payload) {
            id0 + 1
        } else {
            id0
        }
        &&& match m.body.payload {
            CounterPayload::Add { delta } => if s0.local + delta > usize::MAX {
                r is Err && r->Err_0 is Overflow && s1 == s0
            } else {
                &&& one_reply(r, m, id0)
                &&& r->Ok_0@[0].body.payload is AddOk
                &&& s1 == (CounterState { local: (s0.local + delta) as nat, ..s0 })
            },
            CounterPayload::Read => if read_value(s0) > usize::MAX {
                r is Err && r->Err_0 is Overflow && s1 == s0
            } else {
                &&& one_reply(r, m, id0)
                &&& r->Ok_0@[0].body.payload == (CounterPayload::ReadOk { value: read_value(s0) as usize })
                &&& s1 == s0
            },
            CounterPayload::Gossip { values } => no_output(r) && merged(s0, counts_view(values@), s1),
            _ => no_output(r) && s1 == s0,
        }
    }
}

/// What `from_init` gives: an error exactly when the node's id is not in
/// the cluster; otherwise a node with nothing added and nothing known, 1 as
/// its next message id, and as neighbours the `fanout` nodes that follow
/// the first occurrence of its id on the ring.
pub open spec fn counter_started(init: Init, r: Result<GrowOnlyNode, NodeError>) -> bool {
    &&& r is Err <==> !ids_view(init.node_ids@).contains(init.node_id@)
    &&& r is Err ==> r->Err_0 is UnknownNode
    &&& r matches Ok(node) ==> {
        &&& counter_inv(node@)
        &&& node.next_id() == 1
        &&& node@.node_id == init.node_id@
        &&& node@.local == 0
        &&& node@.known.len() == 0
        &&& exists|index: int|
            0 <= index < init.node_ids@.len() && init.node_ids@[index]@ == init.node_id@
                && (forall|j: int| 0 <= j < index ==> (#[trigger] init.node_ids@[j])@ != init.node_id@)
                && node@.neighbours == ring_neighbours(ids_view(init.node_ids@), index)
    }
}

/// What one call of `handle` does: from node `pre` to node `post`, given
/// `input`, giving `r`. The node keeps its id and its invariant; the end of
/// input changes nothing and sends nothing; a tick sends every neighbour
/// all known counts and changes nothing; an inbound message does what
/// `count_message_handled` says.
pub open spec fn counter_step(
    pre: GrowOnlyNode,
    input: Event<CounterPayload, InjectedPayload>,
    post: GrowOnlyNode,
    r: Result<Vec<Message<CounterPayload>>, NodeError>,
) -> bool {
    &&& counter_inv(post@)
    &&& post@.node_id == pre@.node_id
    &&& match input {
        Event::EOF => no_output(r) && post@ == pre@ && post.next_id() == pre.next_id(),
        Event::Injected(_) => {
            &&& r is Ok
            &&& r->Ok_0@.len() == pre@.neighbours.len()
            &&& forall|i: int| 0 <= i < r->Ok_0@.len() ==> is_count_gossip_to(#[trigger] r->Ok_0@[i], pre@, pre@.neighbours[i])
            &&& post@ == pre@
            &&& post.next_id() == pre.next_id()
        },
        Event::Message(m) => count_message_handled(pre@, pre.next_id(), post@, post.next_id(), m, r),
    }
}

/// A node of the grow-only counter: it adds deltas locally, keeps the best
/// count it has heard of every other node, and pushes all it knows to a
/// few successors on the ring.
pub struct GrowOnlyNode {
    latest_val: usize,
    msg_id: usize,
    node_id: String,
    known: Vec<(String, usize)>,
    neighbours: Vec<String>,
}

impl View for GrowOnlyNode {
    type V = CounterState;

    closed spec fn view(&self) -> CounterState {
        CounterState {
            node_id: self.node_id@,
            local: self.latest_val as nat,
            known: counts_view(self.known@),
            neighbours: ids_view(self.neighbours@),
        }
    }
}

impl GrowOnlyNode {
    /// Each node has at most one entry, and the node itself none.
    pub closed spec fn wf(&self) -> bool {
        &&& unique_keys(counts_view(self.known@))
        &&& forall|i: int| 0 <= i < self.known@.len() ==> (#[trigger] self.known@[i]).0@ != self.node_id@
    }

    /// The id that the next reply will carry.
    pub closed spec fn next_id(&self) -> nat {
        self.msg_id as nat
    }

    proof fn lemma_wf_inv(&self)
        requires
            self.wf(),
        ensures
            counter_inv(self@),
    {
        assert forall|i: int| 0 <= i < self@.known.len() implies (#[trigger] self@.known[i]).0 != self@.node_id by {
            assert(self.known@[i].0@ != self.node_id@);
        }
    }

    /// A node with nothing added and nothing known, whose neighbours are the
    /// `fanout` nodes after it in the order of `init.node_ids`, wrapping
    /// round. Fails where its own id is not in the list.
    pub fn from_init(init: Init) -> (r: Result<Self, NodeError>)
        ensures
            counter_started(init, r),
            r matches Ok(node) ==> node.wf(),
    {
        let nodes = &init.node_ids;
        let noden = nodes.len();
        let mut index: usize = 0;
        while index < noden && !(nodes[index] == init.node_id)
            invariant
                index <= noden,
                noden == nodes@.len(),
                forall|j: int| 0 <= j < index ==> (#[trigger] nodes@[j])@ != init.node_id@,
            decreases noden - index,
        {
            index = index + 1;
        }
        if index == noden {
            assert(!ids_view(nodes@).contains(init.node_id@)) by {
                if ids_view(nodes@).contains(init.node_id@) {
                    let j = choose|j: int| 0 <= j < ids_view(nodes@).len() && ids_view(nodes@)[j] == init.node_id@;
                    assert(nodes@[j]@ == init.node_id@);
                }
            }
            return Err(NodeError::UnknownNode);
        }
        assert(ids_view(nodes@)[index as int] == init.node_id@);
        let half = noden / 2;
        let k: usize = if half < 1 {
            1
        } else if half > 3 {
            3
        } else {
            half
        };
        let mut neighbours: Vec<String> = Vec::new();
        let mut i: usize = 1;
        while i <= k
            invariant
                1 <= i <= k + 1,
                k == fanout(noden as nat),
                k <= noden,
                index < noden,
                noden == nodes@.len(),
                neighbours@.len() == i - 1,
                forall|j: int| 0 <= j < i - 1 ==> (#[trigger] neighbours@[j])@ == ring_neighbours(ids_view(nodes@), index as int)[j],
            decreases k + 1 - i,
        {
            let pos = if i < noden - index {
                index + i
            } else {
                i - (noden - index)
            };
            proof {
                if i < noden - index {
                    vstd::arithmetic::div_mod::lemma_small_mod((index + i) as nat, noden as nat);
                } else {
                    vstd::arithmetic::div_mod::lemma_mod_multiples_vanish(1, pos as int, noden as int);
                    vstd::arithmetic::div_mod::lemma_small_mod(pos as nat, noden as nat);
                }
            }
            assert(pos as int == (index + i) as int % (noden as int));
            neighbours.push(nodes[pos].clone());
            i = i + 1;
        }
        assert(ids_view(neighbours@) =~= ring_neighbours(ids_view(nodes@), index as int));
        let node = GrowOnlyNode {
            latest_val: 0,
            msg_id: 1,
            node_id: init.node_id,
            known: Vec::new(),
            neighbours,
        };
        assert(node@.known =~= Seq::<(Seq<char>, nat)>::empty());
        Ok(node)
    }

    /// Merges the gossip `vals`: for every other node, the larger of the
    /// known and the incoming count is kept.
    fn merge_gossip(&mut self, vals: &Vec<(String, usize)>)
        requires
            old(self).wf(),
        ensures
            final(self).wf(),
            final(self).next_id() == old(self).next_id(),
            merged(old(self)@, counts_view(vals@), final(self)@),
    {
        let ghost s0 = self@;
        proof {
            self.lemma_wf_inv();
            assert forall|n: Seq<char>| #[trigger] count_of(s0.known, n) == merged_count(s0, counts_view(vals@.take(0)), n) by {
                assert(counts_view(vals@.take(0)).len() == 0);
            }
        }
        let mut i: usize = 0;
        while i < vals.len()
            invariant
                self.wf(),
                i <= vals.len(),
                self.msg_id == old(self).msg_id,
                counter_inv(s0),
                self@.node_id == s0.node_id,
                self@.local == s0.local,
                self@.neighbours == s0.neighbours,
                forall|n: Seq<char>| #[trigger] count_of(self@.known, n) == merged_count(s0, counts_view(vals@.take(i as int)), n),
            decreases vals.len() - i,
        {
            let ghost k0 = self@.known;
            proof {
                assert forall|n: Seq<char>| #[trigger] max_for(counts_view(vals@.take(i as int + 1)), n) == if vals@[i as int].0@ == n
                    && vals@[i as int].1 as nat > max_for(counts_view(vals@.take(i as int)), n) {
                    vals@[i as int].1 as nat
                } else {
                    max_for(counts_view(vals@.take(i as int)), n)
                } by {
                    lemma_max_step(vals@, i as int, n);
                }
            }
            let node = &vals[i].0;
            let val = vals[i].1;
            if !(*node == self.node_id) {
                let mut j: usize = 0;
                while j < self.known.len() && !(self.known[j].0 == *node)
                    invariant
                        j <= self.known.len(),
                        forall|l: int| 0 <= l < j ==> (#[trigger] self.known@[l]).0@ != node@,
                    decreases self.known.len() - j,
                {
                    j = j + 1;
                }
                if j < self.known.len() {
                    proof {
                        assert(k0[j as int].0 == node@);
                        lemma_count_of_unique(k0, j as int);
                    }
                    if self.known[j].1 <= val {
                        let key = node.clone();
                        self.known.set(j, (key, val));
                        proof {
                            let e = (node@, val as nat);
                            assert(self@.known =~= k0.update(j as int, e));
                            lemma_count_of_unique(self@.known, j as int);
                            assert forall|n: Seq<char>| n != node@ implies #[trigger] count_of(self@.known, n) == count_of(k0, n) by {
                                lemma_count_of_other(k0, j as int, e, n);
                            }
                            assert forall|a: int, b: int| 0 <= a < b < self@.known.len() implies (#[trigger] self@.known[a]).0 != (#[trigger] self@.known[b]).0 by {
                                assert(self@.known[a].0 == k0[a].0);
                                assert(self@.known[b].0 == k0[b].0);
                            }
                        }
                    }
                } else {
                    proof {
                        assert forall|l: int| 0 <= l < k0.len() implies (#[trigger] k0[l]).0 != node@ by {
                            assert(self.known@[l].0@ != node@);
                        }
                        lemma_count_of_absent(k0, node@);
                    }
                    self.known.push((node.clone(), val));
                    assert forall|a: int, b: int| 0 <= a < b < self@.known.len() implies (#[trigger] self@.known[a]).0 != (#[trigger] self@.known[b]).0 by {
                        assert(self@.known[a] == k0[a]);
                        if b == self@.known.len() - 1 {
                            assert(k0[a].0 != node@);
                        } else {
                            assert(self@.known[b] == k0[b]);
                        }
                    }
                    assert(self@.known =~= k0.push((node@, val as nat)));
                    assert(self@.known.drop_last() =~= k0);
                }
            }
            proof {
                assert forall|n: Seq<char>| #[trigger] count_of(self@.known, n) == merged_count(s0, counts_view(vals@.take(i as int + 1)), n) by {
                    lemma_max_step(vals@, i as int, n);
                    if n != node@ {
                        assert(count_of(self@.known, n) == count_of(k0, n));
                    }
                    if n == s0.node_id {
                        lemma_count_of_absent(self@.known, n);
                        lemma_count_of_absent(s0.known, n);
                    }
                }
            }
            i = i + 1;
        }
        assert(vals@.take(i as int) =~= vals@);
        proof {
            self.lemma_wf_inv();
        }
    }

    /// The value a read returns, or `None` where it does not fit in a `usize`.
    fn read_total(&self) -> (r: Option<usize>)
        ensures
            r is Some <==> read_value(self@) <= usize::MAX,
            r matches Some(v) ==> v == read_value(self@),
    {
        let mut acc: usize = self.latest_val;
        let mut i: usize = 0;
        while i < self.known.len()
            invariant
                i <= self.known.len(),
                acc == self@.local + total(self@.known.take(i as int)),
            decreases self.known.len() - i,
        {
            assert(self@.known.take(i as int + 1).drop_last() =~= self@.known.take(i as int));
            proof {
                lemma_total_prefix(self@.known, i as int + 1);
            }
            match acc.checked_add(self.known[i].1) {
                Some(v) => acc = v,
                None => return None,
            }
            i = i + 1;
        }
        assert(self@.known.take(i as int) =~= self@.known);
        Some(acc)
    }

    /// The known counts with the node's own count last.
    fn snapshot(&self) -> (r: Vec<(String, usize)>)
        ensures
            counts_view(r@) == self@.known.push((self@.node_id, self@.local)),
    {
        let mut r: Vec<(String, usize)> = Vec::new();
        let mut i: usize = 0;
        while i < self.known.len()
            invariant
                i <= self.known.len(),
                r@.len() == i,
                forall|j: int| 0 <= j < i ==> (#[trigger] r@[j]).0@ == self.known@[j].0@ && r@[j].1 == self.known@[j].1,
            decreases self.known.len() - i,
        {
            let key = self.known[i].0.clone();
            r.push((key, self.known[i].1));
            i = i + 1;
        }
        r.push((self.node_id.clone(), self.latest_val));
        assert(counts_view(r@) =~= self@.known.push((self@.node_id, self@.local)));
        r
    }

    /// One gossip message for each neighbour, in order, with every count
    /// the node knows.
    fn gossip(&self) -> (out: Vec<Message<CounterPayload>>)
        ensures
            out@.len() == self@.neighbours.len(),
            forall|i: int| 0 <= i < out@.len() ==> is_count_gossip_to(#[trigger] out@[i], self@, self@.neighbours[i]),
    {
        let mut out: Vec<Message<CounterPayload>> = Vec::new();
        let mut i: usize = 0;
        while i < self.neighbours.len()
            invariant
                i <= self.neighbours.len(),
                out@.len() == i,
                forall|j: int| 0 <= j < i ==> is_count_gossip_to(#[trigger] out@[j], self@, self@.neighbours[j]),
            decreases self.neighbours.len() - i,
        {
            let values = self.snapshot();
            out.push(Message {
                src: self.node_id.clone(),
                dst: self.neighbours[i].clone(),
                body: Body { id: None, in_reply_to: None, payload: CounterPayload::Gossip { values } },
            });
            i = i + 1;
        }
        out
    }

    /// Handles one event and returns the envelopes to send.
    ///
    /// Every message that is answered uses up one message id; the others
    /// take none. An add grows the node's own count and is acknowledged; a read
    /// is answered with the node's count plus the best known count of every
    /// other node; a gossip message is merged and not answered; replies are
    /// ignored. A count that would not fit in a `usize` is an error. A tick
    /// sends every neighbour all the counts the node knows, its own
    /// included; the end of input does nothing.
    pub fn handle(&mut self, input: Event<CounterPayload, InjectedPayload>) -> (r: Result<
        Vec<Message<CounterPayload>>,
        NodeError,
    >)
        requires
            old(self).wf(),
        ensures
            final(self).wf(),
            counter_step(*old(self), input, *final(self), r),
    {
        let r = match input {
            Event::EOF => Ok(Vec::new()),
            Event::Injected(InjectedPayload::Gossip) => Ok(self.gossip()),
            Event::Message(m) => self.handle_message(m),
        };
        proof {
            self.lemma_wf_inv();
        }
        r
    }

    fn handle_message(&mut self, m: Message<CounterPayload>) -> (r: Result<Vec<Message<CounterPayload>>, NodeError>)
        requires
            old(self).wf(),
        ensures
            final(self).wf(),
            final(self)@.node_id == old(self)@.node_id,
            count_message_handled(old(self)@, old(self).next_id(), final(self)@, final(self).next_id(), m, r),
    {
        let needs = match &m.body.payload {
            CounterPayload::Add { .. } => true,
            CounterPayload::Read => true,
            _ => false,
        };
        if needs && self.msg_id == usize::MAX {
            return Err(NodeError::IdsExhausted);
        }
        let ghost s0 = self@;
        let ghost id0 = self.next_id();
        let ghost req = m;
        let reply = if needs {
            m.into_reply(Some(&mut self.msg_id))
        } else {
            m.into_reply(None)
        };
        let Message { src, dst, body: Body { id, in_reply_to, payload } } = reply;
        let r = match payload {
            CounterPayload::Add { delta } => {
                match self.latest_val.checked_add(delta) {
                    Some(v) => {
                        self.latest_val = v;
                        let payload = CounterPayload::AddOk;
                        let out = vec![Message { src, dst, body: Body { id, in_reply_to, payload } }];
                        assert(is_reply_to(out@[0], req, id0));
                        assert(self@ == (CounterState { local: (s0.local + delta) as nat, ..s0 }));
                        Ok(out)
                    },
                    None => Err(NodeError::Overflow),
                }
            },
            CounterPayload::Gossip { values } => {
                self.merge_gossip(&values);
                Ok(Vec::new())
            },
            CounterPayload::Read => {
                match self.read_total() {
                    Some(value) => {
                        let payload = CounterPayload::ReadOk { value };
                        let out = vec![Message { src, dst, body: Body { id, in_reply_to, payload } }];
                        assert(is_reply_to(out@[0], req, id0));
                        Ok(out)
                    },
                    None => Err(NodeError::Overflow),
                }
            },
            CounterPayload::AddOk => Ok(Vec::new()),
            CounterPayload::ReadOk { .. } => Ok(Vec::new()),
        };
        assert(count_message_handled(s0, id0, self@, self.next_id(), req, r));
        r
    }
}

proof fn lemma_count_le_max(k: Seq<(Seq<char>, nat)>, n: Seq<char>)
    ensures
        count_of(k, n) <= max_for(k, n),
    decreases k.len(),
{
    if k.len() > 0 {
        lemma_count_le_max(k.drop_last(), n);
    }
}

/// Merging the same gossip twice gives every node the same count as
/// merging it once.
pub proof fn lemma_merge_idempotent(
    s0: CounterState,
    vals: Seq<(Seq<char>, nat)>,
    s1: CounterState,
    s2: CounterState,
)
    requires
        merged(s0, vals, s1),
        merged(s1, vals, s2),
    ensures
        forall|n: Seq<char>| #[trigger] count_of(s2.known, n) == count_of(s1.known, n),
        s2.local == s1.local,
{
    assert forall|n: Seq<char>| #[trigger] count_of(s2.known, n) == count_of(s1.known, n) by {
        assert(count_of(s1.known, n) == merged_count(s0, vals, n));
        assert(count_of(s2.known, n) == merged_count(s1, vals, n));
    }
}

/// Two gossip messages merged in either order give every node the same
/// count.
pub proof fn lemma_merge_commutes(
    s0: CounterState,
    v1: Seq<(Seq<char>, nat)>,
    v2: Seq<(Seq<char>, nat)>,
    a1: CounterState,
    a2: CounterState,
    b1: CounterState,
    b2: CounterState,
)
    requires
        merged(s0, v1, a1),
        merged(a1, v2, a2),
        merged(s0, v2, b1),
        merged(b1, v1, b2),
    ensures
        forall|n: Seq<char>| #[trigger] count_of(a2.known, n) == count_of(b2.known, n),
{
    assert forall|n: Seq<char>| #[trigger] count_of(a2.known, n) == count_of(b2.known, n) by {
        assert(count_of(a1.known, n) == merged_count(s0, v1, n));
        assert(count_of(a2.known, n) == merged_count(a1, v2, n));
        assert(count_of(b1.known, n) == merged_count(s0, v2, n));
        assert(count_of(b2.known, n) == merged_count(b1, v1, n));
    }
}

/// No inbound message that a node handles, whether it succeeds or fails,
/// lowers its own count or the count it knows of any node, or changes its
/// neighbours.
pub proof fn lemma_count_handled_monotone(
    s0: CounterState,
    id0: nat,
    s1: CounterState,
    id1: nat,
    m: Message<CounterPayload>,
    r: Result<Vec<Message<CounterPayload>>, NodeError>,
)
    requires
        count_message_handled(s0, id0, s1, id1, m, r),
    ensures
        s0.local <= s1.local,
        s1.node_id == s0.node_id,
        s1.neighbours == s0.neighbours,
        forall|n: Seq<char>| count_of(s0.known, n) <= #[trigger] count_of(s1.known, n),
{
}

/// Once `b` merges the gossip that `a` sends it, `b` knows `a`'s own count
/// and, for every node but `b`, at least the count that `a` knows.
pub proof fn lemma_count_gossip_delivers(a: CounterState, b: CounterState, b1: CounterState)
    requires
        merged(b, a.known.push((a.node_id, a.local)), b1),
        a.node_id != b.node_id,
    ensures
        count_of(b1.known, a.node_id) >= a.local,
        forall|n: Seq<char>| n != b.node_id ==> #[trigger] count_of(b1.known, n) >= count_of(a.known, n),
{
    let g = a.known.push((a.node_id, a.local));
    assert(g.drop_last() =~= a.known);
    assert(count_of(b1.known, a.node_id) == merged_count(b, g, a.node_id));
    assert forall|n: Seq<char>| n != b.node_id implies #[trigger] count_of(b1.known, n) >= count_of(a.known, n) by {
        assert(count_of(b1.known, n) == merged_count(b, g, n));
        lemma_count_le_max(g, n);
        lemma_count_le_max(a.known, n);
    }
}

proof fn lemma_max_is_count(k: Seq<(Seq<char>, nat)>, n: Seq<char>)
    requires
        unique_keys(k),
    ensures
        max_for(k, n) == count_of(k, n),
    decreases k.len(),
{
    if k.len() > 0 {
        let d = k.drop_last();
        assert(unique_keys(d)) by {
            assert forall|a: int, b: int| 0 <= a < b < d.len() implies (#[trigger] d[a]).0 != (#[trigger] d[b]).0 by {
                assert(d[a] == k[a] && d[b] == k[b]);
            }
        }
        lemma_max_is_count(d, n);
        if k.last().0 == n {
            assert forall|i: int| 0 <= i < d.len() implies (#[trigger] d[i]).0 != n by {
                assert(d[i] == k[i]);
                assert(k[k.len() - 1] == k.last());
            }
            lemma_count_of_absent(d, n);
        }
    }
}

/// The larger of two naturals.
pub open spec fn max_nat(a: nat, b: nat) -> nat {
    if a >= b {
        a
    } else {
        b
    }
}

/// Two counter nodes that send each other their gossip in the same round
/// and merge what the other sent end up with the same count for every
/// third node, the larger of the two they had; each learns the other's own
/// total unless it already knew a larger count.
pub proof fn lemma_count_exchange_agrees(a: CounterState, b: CounterState, a1: CounterState, b1: CounterState)
    requires
        counter_inv(a),
        counter_inv(b),
        a.node_id != b.node_id,
        merged(b, a.known.push((a.node_id, a.local)), b1),
        merged(a, b.known.push((b.node_id, b.local)), a1),
    ensures
        forall|n: Seq<char>| n != a.node_id && n != b.node_id ==> #[trigger] count_of(a1.known, n) == count_of(b1.known, n)
            && count_of(a1.known, n) == max_nat(count_of(a.known, n), count_of(b.known, n)),
        count_of(b1.known, a.node_id) == max_nat(count_of(b.known, a.node_id), a.local),
        count_of(a1.known, b.node_id) == max_nat(count_of(a.known, b.node_id), b.local),
{
    let ga = a.known.push((a.node_id, a.local));
    let gb = b.known.push((b.node_id, b.local));
    assert(unique_keys(ga)) by {
        assert forall|x: int, y: int| 0 <= x < y < ga.len() implies (#[trigger] ga[x]).0 != (#[trigger] ga[y]).0 by {
            assert(ga[x] == a.known[x]);
            if y < a.known.len() {
                assert(ga[y] == a.known[y]);
            }
        }
    }
    assert(unique_keys(gb)) by {
        assert forall|x: int, y: int| 0 <= x < y < gb.len() implies (#[trigger] gb[x]).0 != (#[trigger] gb[y]).0 by {
            assert(gb[x] == b.known[x]);
            if y < b.known.len() {
                assert(gb[y] == b.known[y]);
            }
        }
    }
    assert(ga.drop_last() =~= a.known);
    assert(gb.drop_last() =~= b.known);
    assert forall|n: Seq<char>| n != a.node_id && n != b.node_id implies #[trigger] count_of(a1.known, n) == count_of(b1.known, n)
        && count_of(a1.known, n) == max_nat(count_of(a.known, n), count_of(b.known, n)) by {
        lemma_max_is_count(ga, n);
        lemma_max_is_count(gb, n);
        assert(count_of(a1.known, n) == merged_count(a, gb, n));
        assert(count_of(b1.known, n) == merged_count(b, ga, n));
    }
    lemma_max_is_count(ga, a.node_id);
    lemma_max_is_count(gb, b.node_id);
    assert(count_of(b1.known, a.node_id) == merged_count(b, ga, a.node_id));
    assert(count_of(a1.known, b.node_id) == merged_count(a, gb, b.node_id));
}

/// Gossip takes no message id and always succeeds. Handling the same gossip
/// message a second time leaves every count, the
/// node's own total and its neighbours as the first time did, and sends
/// nothing.
pub proof fn lemma_count_handled_gossip_twice(
    s0: CounterState,
    id0: nat,
    s1: CounterState,
    id1: nat,
    s2: CounterState,
    id2: nat,
    m: Message<CounterPayload>,
    r1: Result<Vec<Message<CounterPayload>>, NodeError>,
    r2: Result<Vec<Message<CounterPayload>>, NodeError>,
)
    requires
        m.body.payload is Gossip,
        count_message_handled(s0, id0, s1, id1, m, r1),
        count_message_handled(s1, id1, s2, id2, m, r2),
    ensures
        forall|n: Seq<char>| #[trigger] count_of(s2.known, n) == count_of(s1.known, n),
        s2.local == s1.local,
        s2.neighbours == s1.neighbours,
        s2.node_id == s1.node_id,
        no_output(r1),
        no_output(r2),
        id2 == id1 && id1 == id0,
{
    lemma_merge_idempotent(s0, counts_view(m.body.payload->values@), s1, s2);
}

/// Whatever a node sends in answer to an inbound message names that
/// message's id in `in_reply_to` and goes back to its sender.
pub proof fn lemma_count_replies_correlate(
    s0: CounterState,
    id0: nat,
    s1: CounterState,
    id1: nat,
    m: Message<CounterPayload>,
    r: Result<Vec<Message<CounterPayload>>, NodeError>,
)
    requires
        count_message_handled(s0, id0, s1, id1, m, r),
        r is Ok,
    ensures
        forall|i: int| 0 <= i < r->Ok_0@.len() ==> (#[trigger] r->Ok_0@[i]).body.in_reply_to == m.body.id
            && r->Ok_0@[i].dst@ == m.src@,
{
}

impl Node<CounterPayload, InjectedPayload> for GrowOnlyNode {
    open spec fn inv(&self) -> bool {
        self.wf()
    }

    open spec fn initialized(init: Init, r: Result<Self, NodeError>) -> bool {
        counter_started(init, r)
    }

    open spec fn handled(
        pre: Self,
        input: Event<CounterPayload, InjectedPayload>,
        post: Self,
        r: Result<Vec<Message<CounterPayload>>, NodeError>,
    ) -> bool {
        counter_step(pre, input, post, r)
    }

    fn from_init(init: Init) -> (r: Result<Self, NodeError>) {
        GrowOnlyNode::from_init(init)
    }

    fn handle(&mut self, input: Event<CounterPayload, InjectedPayload>) -> (r: Result<
        Vec<Message<CounterPayload>>,
        NodeError,
    >) {
        GrowOnlyNode::handle(self, input)
    }
}

} // verus!
