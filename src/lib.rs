//! A small runtime for nodes of a simulated message-passing cluster, with a
//! deduplicating broadcast node and a grow-only counter node that spread
//! their state by gossip.
//!
//! Every node here is a pure state machine: it takes one event at a time and
//! returns the envelopes it wants sent. Reading input, timers and writing
//! output belong to the program that drives it.
mod broadcast;
mod counter;
mod echo;
mod envelope;
mod unique;

pub use broadcast::{
    after_broadcast, after_gossip, broadcast_started, broadcast_step, delta_for, first_entry, lemma_exchange_agrees, gossip_sent, ids_view, is_gossip_to,
    known_of, known_view, lemma_gossip_commutes, lemma_gossip_delivers, lemma_gossip_idempotent,
    lemma_handled_gossip_twice, lemma_handled_monotone, lemma_known_stays_held, lemma_replies_correlate, message_handled, needs_reply, no_self_neighbour, without,
    BroadcastNode, BroadcastPayload, BroadcastState,
};
pub use counter::{
    count_message_handled, count_needs_reply, count_of, counter_inv, counter_started, counter_step, counts_view, fanout, is_count_gossip_to,
    lemma_count_exchange_agrees, lemma_count_gossip_delivers, lemma_count_handled_gossip_twice, lemma_count_handled_monotone, lemma_count_replies_correlate,
    lemma_merge_commutes, lemma_merge_idempotent, max_for, max_nat, merged, merged_count, read_value,
    ring_neighbours, total, unique_keys, CounterPayload, CounterState, GrowOnlyNode,
};
pub use echo::{echo_started, echo_step, EchoNode, EchoPayload};
pub use envelope::{
    is_reply_to, no_output, one_reply, Body, Event, Init, InjectedPayload, Message, Node,
    NodeError,
};
pub use unique::{decimal, digit, guid, unique_started, unique_step, UniqueNode, UniquePayload};
