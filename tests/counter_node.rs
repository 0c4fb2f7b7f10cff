use rtrom::{Body, CounterPayload, Event, GrowOnlyNode, Init, InjectedPayload, Message, NodeError};

type Ev = Event<CounterPayload, InjectedPayload>;

fn init(me: &str, all: &[&str]) -> Init {
    Init { node_id: me.to_string(), node_ids: all.iter().map(|s| s.to_string()).collect() }
}

fn msg(src: &str, dst: &str, id: Option<usize>, payload: CounterPayload) -> Ev {
    Event::Message(Message {
        src: src.to_string(),
        dst: dst.to_string(),
        body: Body { id, in_reply_to: None, payload },
    })
}

fn node(me: &str, all: &[&str]) -> GrowOnlyNode {
    match GrowOnlyNode::from_init(init(me, all)) {
        Ok(n) => n,
        Err(_) => panic!("init failed"),
    }
}

fn read(n: &mut GrowOnlyNode) -> usize {
    let out = match n.handle(msg("c1", "x", Some(77), CounterPayload::Read)) {
        Ok(out) => out,
        Err(_) => panic!("read failed"),
    };
    assert_eq!(out.len(), 1);
    assert_eq!(out[0].body.in_reply_to, Some(77));
    match out[0].body.payload {
        CounterPayload::ReadOk { value } => value,
        _ => panic!("expected read_ok"),
    }
}

fn tick(n: &mut GrowOnlyNode) -> Vec<Message<CounterPayload>> {
    match n.handle(Event::Injected(InjectedPayload::Gossip)) {
        Ok(out) => out,
        Err(_) => panic!("tick failed"),
    }
}

fn targets(out: &[Message<CounterPayload>]) -> Vec<String> {
    out.iter().map(|m| m.dst.clone()).collect()
}

const RING: [&str; 5] = ["n1", "n2", "n3", "n4", "n5"];

fn round(nodes: &mut Vec<GrowOnlyNode>) {
    let mut sent = Vec::new();
    for n in nodes.iter_mut() {
        sent.extend(tick(n));
    }
    for m in sent {
        let idx = RING.iter().position(|x| *x == m.dst).unwrap();
        let out = nodes[idx].handle(Event::Message(m));
        assert!(matches!(out, Ok(ref v) if v.is_empty()));
    }
}

#[test]
fn ring_add_reaches_successors_then_everyone() {
    let mut nodes: Vec<GrowOnlyNode> = RING.iter().map(|me| node(me, &RING)).collect();
    let out = nodes[0].handle(msg("c1", "n1", Some(5), CounterPayload::Add { delta: 3 })).ok().unwrap();
    assert_eq!(out.len(), 1);
    assert!(matches!(out[0].body.payload, CounterPayload::AddOk));
    assert_eq!(out[0].body.in_reply_to, Some(5));
    let first = tick(&mut nodes[0]);
    assert_eq!(targets(&first), vec!["n2".to_string(), "n3".to_string()]);
    for m in first {
        let idx = RING.iter().position(|x| *x == m.dst).unwrap();
        nodes[idx].handle(Event::Message(m)).ok();
    }
    assert_eq!(read(&mut nodes[1]), 3);
    assert_eq!(read(&mut nodes[2]), 3);
    round(&mut nodes);
    for n in nodes.iter_mut() {
        assert_eq!(read(n), 3);
    }
    round(&mut nodes);
    for n in nodes.iter_mut() {
        assert_eq!(read(n), 3);
    }
}

#[test]
fn fanout_follows_cluster_size() {
    let mut one = node("a", &["a"]);
    assert_eq!(targets(&tick(&mut one)), vec!["a".to_string()]);
    let mut four = node("c", &["a", "b", "c", "d"]);
    assert_eq!(targets(&tick(&mut four)), vec!["d".to_string(), "a".to_string()]);
    let all = ["a", "b", "c", "d", "e", "f", "g", "h", "i", "j"];
    let mut ten = node("i", &all);
    assert_eq!(targets(&tick(&mut ten)), vec!["j".to_string(), "a".to_string(), "b".to_string()]);
}

#[test]
fn unknown_node_cannot_start() {
    assert!(matches!(GrowOnlyNode::from_init(init("z", &["a", "b"])), Err(NodeError::UnknownNode)));
    assert!(matches!(GrowOnlyNode::from_init(init("z", &[])), Err(NodeError::UnknownNode)));
}

#[test]
fn gossip_merge_keeps_the_larger_count() {
    let mut n = node("n1", &["n1", "n2", "n3"]);
    let g = |v: Vec<(&str, usize)>| CounterPayload::Gossip { values: v.into_iter().map(|(k, x)| (k.to_string(), x)).collect() };
    n.handle(msg("n2", "n1", None, g(vec![("n2", 4), ("n3", 2)]))).ok();
    assert_eq!(read(&mut n), 6);
    n.handle(msg("n3", "n1", None, g(vec![("n2", 1), ("n3", 5)]))).ok();
    assert_eq!(read(&mut n), 9);
    n.handle(msg("n3", "n1", None, g(vec![("n1", 100)]))).ok();
    assert_eq!(read(&mut n), 9);
    n.handle(msg("n3", "n1", None, g(vec![("n2", 1), ("n3", 5)]))).ok();
    assert_eq!(read(&mut n), 9);
}

#[test]
fn tick_sends_known_counts_and_own() {
    let mut n = node("n1", &["n1", "n2"]);
    n.handle(msg("c1", "n1", Some(1), CounterPayload::Add { delta: 2 })).ok();
    n.handle(msg("n2", "n1", None, CounterPayload::Gossip { values: vec![("n2".to_string(), 8)] })).ok();
    let out = tick(&mut n);
    assert_eq!(out.len(), 1);
    assert_eq!(out[0].src, "n1");
    assert_eq!(out[0].body.id, None);
    match &out[0].body.payload {
        CounterPayload::Gossip { values } => {
            assert_eq!(values, &vec![("n2".to_string(), 8), ("n1".to_string(), 2)]);
        }
        _ => panic!("expected gossip"),
    }
}

#[test]
fn counter_overflow_is_an_error() {
    let mut n = node("n1", &["n1"]);
    assert!(n.handle(msg("c1", "n1", Some(1), CounterPayload::Add { delta: usize::MAX })).is_ok());
    assert!(matches!(
        n.handle(msg("c1", "n1", Some(2), CounterPayload::Add { delta: 1 })),
        Err(NodeError::Overflow)
    ));
    let mut m = node("n1", &["n1", "n2"]);
    m.handle(msg("c1", "n1", Some(1), CounterPayload::Add { delta: usize::MAX })).ok();
    m.handle(msg("n2", "n1", None, CounterPayload::Gossip { values: vec![("n2".to_string(), 1)] })).ok();
    assert!(matches!(m.handle(msg("c1", "n1", Some(3), CounterPayload::Read)), Err(NodeError::Overflow)));
}

#[test]
fn counter_replies_and_end_of_input_are_ignored() {
    let mut n = node("n1", &["n1"]);
    assert!(matches!(n.handle(msg("c1", "n1", None, CounterPayload::AddOk)), Ok(ref v) if v.is_empty()));
    assert!(matches!(n.handle(msg("c1", "n1", None, CounterPayload::ReadOk { value: 4 })), Ok(ref v) if v.is_empty()));
    assert!(matches!(n.handle(Event::EOF), Ok(ref v) if v.is_empty()));
    assert_eq!(read(&mut n), 0);
}

#[test]
fn failed_add_keeps_the_count() {
    let mut n = node("n1", &["n1"]);
    n.handle(msg("c1", "n1", Some(1), CounterPayload::Add { delta: usize::MAX - 1 })).ok();
    assert!(matches!(
        n.handle(msg("c1", "n1", Some(2), CounterPayload::Add { delta: 2 })),
        Err(NodeError::Overflow)
    ));
    assert_eq!(read(&mut n), usize::MAX - 1);
}
