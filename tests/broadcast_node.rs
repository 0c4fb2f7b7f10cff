use rtrom::{Body, BroadcastNode, BroadcastPayload, Event, Init, InjectedPayload, Message, NodeError};

type Ev = Event<BroadcastPayload, InjectedPayload>;

fn init(me: &str, all: &[&str]) -> Init {
    Init { node_id: me.to_string(), node_ids: all.iter().map(|s| s.to_string()).collect() }
}

fn msg(src: &str, dst: &str, id: Option<usize>, payload: BroadcastPayload) -> Ev {
    Event::Message(Message {
        src: src.to_string(),
        dst: dst.to_string(),
        body: Body { id, in_reply_to: None, payload },
    })
}

fn topology(entries: &[(&str, &[&str])]) -> BroadcastPayload {
    BroadcastPayload::Topology {
        topology: entries
            .iter()
            .map(|(k, v)| (k.to_string(), v.iter().map(|s| s.to_string()).collect()))
            .collect(),
    }
}

fn read_values(node: &mut BroadcastNode) -> Vec<usize> {
    let out = match node.handle(msg("c1", "n1", Some(900), BroadcastPayload::Read)) {
        Ok(out) => out,
        Err(_) => panic!("read failed"),
    };
    assert_eq!(out.len(), 1);
    match &out[0].body.payload {
        BroadcastPayload::ReadOk { messages } => {
            let mut v = messages.clone();
            v.sort();
            v
        }
        _ => panic!("expected read_ok"),
    }
}

fn tick(node: &mut BroadcastNode) -> Vec<Message<BroadcastPayload>> {
    match node.handle(Event::Injected(InjectedPayload::Gossip)) {
        Ok(out) => out,
        Err(_) => panic!("tick failed"),
    }
}

fn seen_of(m: &Message<BroadcastPayload>) -> Vec<usize> {
    match &m.body.payload {
        BroadcastPayload::Gossip { seen } => {
            let mut v = seen.clone();
            v.sort();
            v
        }
        _ => panic!("expected gossip"),
    }
}

fn deliver(node: &mut BroadcastNode, m: Message<BroadcastPayload>) {
    match node.handle(Event::Message(m)) {
        Ok(out) => assert!(out.is_empty()),
        Err(_) => panic!("gossip failed"),
    }
}

fn ready(me: &str, all: &[&str], graph: &[(&str, &[&str])]) -> BroadcastNode {
    let mut node = BroadcastNode::from_init(init(me, all));
    let out = match node.handle(msg("c0", me, Some(1), topology(graph))) {
        Ok(out) => out,
        Err(_) => panic!("topology failed"),
    };
    assert_eq!(out.len(), 1);
    assert!(matches!(out[0].body.payload, BroadcastPayload::TopologyOk));
    node
}

#[test]
fn broadcast_is_acknowledged_read_and_gossiped() {
    let mut n1 = ready("n1", &["n1", "n2"], &[("n1", &["n2"]), ("n2", &["n1"])]);
    let out = match n1.handle(msg("c1", "n1", Some(7), BroadcastPayload::Broadcast { message: 5 })) {
        Ok(out) => out,
        Err(_) => panic!("broadcast failed"),
    };
    assert_eq!(out.len(), 1);
    assert!(matches!(out[0].body.payload, BroadcastPayload::BroadcastOk));
    assert_eq!(out[0].src, "n1");
    assert_eq!(out[0].dst, "c1");
    assert_eq!(out[0].body.in_reply_to, Some(7));
    assert_eq!(read_values(&mut n1), vec![5]);
    let g = tick(&mut n1);
    assert_eq!(g.len(), 1);
    assert_eq!(g[0].src, "n1");
    assert_eq!(g[0].dst, "n2");
    assert_eq!(g[0].body.id, None);
    assert_eq!(g[0].body.in_reply_to, None);
    assert_eq!(seen_of(&g[0]), vec![5]);
}

#[test]
fn repeated_gossip_values_are_kept_once() {
    let mut n1 = ready("n1", &["n1", "n2"], &[("n1", &["n2"]), ("n2", &["n1"])]);
    let out = n1.handle(msg("n2", "n1", None, BroadcastPayload::Gossip { seen: vec![5] }));
    assert!(matches!(out, Ok(ref v) if v.is_empty()));
    let out = n1.handle(msg("n2", "n1", None, BroadcastPayload::Gossip { seen: vec![5, 7] }));
    assert!(matches!(out, Ok(ref v) if v.is_empty()));
    assert_eq!(read_values(&mut n1), vec![5, 7]);
}

#[test]
fn topology_without_the_node_is_an_error() {
    let mut n1 = BroadcastNode::from_init(init("n1", &["n1", "n2"]));
    let r = n1.handle(msg("c0", "n1", Some(1), topology(&[("n2", &["n3"]), ("n3", &["n2"])])));
    assert!(matches!(r, Err(NodeError::NoTopology)));
}

#[test]
fn same_gossip_twice_equals_once() {
    let mut a = ready("n1", &["n1", "n2"], &[("n1", &["n2"])]);
    let mut b = ready("n1", &["n1", "n2"], &[("n1", &["n2"])]);
    a.handle(msg("n3", "n1", None, BroadcastPayload::Gossip { seen: vec![1, 2] })).ok();
    b.handle(msg("n3", "n1", None, BroadcastPayload::Gossip { seen: vec![1, 2] })).ok();
    b.handle(msg("n3", "n1", None, BroadcastPayload::Gossip { seen: vec![1, 2] })).ok();
    assert_eq!(read_values(&mut a), read_values(&mut b));
    assert_eq!(seen_of(&tick(&mut a)[0]), seen_of(&tick(&mut b)[0]));
}

#[test]
fn values_never_disappear() {
    let mut n1 = ready("n1", &["n1", "n2"], &[("n1", &["n2"])]);
    n1.handle(msg("c1", "n1", Some(1), BroadcastPayload::Broadcast { message: 9 })).ok();
    n1.handle(msg("n2", "n1", None, BroadcastPayload::Gossip { seen: vec![] })).ok();
    n1.handle(msg("c1", "n1", Some(2), BroadcastPayload::Broadcast { message: 9 })).ok();
    n1.handle(msg("n2", "n1", None, BroadcastPayload::Gossip { seen: vec![3] })).ok();
    assert_eq!(read_values(&mut n1), vec![3, 9]);
}

#[test]
fn gossip_skips_what_the_neighbour_sent() {
    let mut n1 = ready("n1", &["n1", "n2"], &[("n1", &["n2"])]);
    n1.handle(msg("n2", "n1", None, BroadcastPayload::Gossip { seen: vec![4] })).ok();
    n1.handle(msg("c1", "n1", Some(3), BroadcastPayload::Broadcast { message: 6 })).ok();
    let g = tick(&mut n1);
    assert_eq!(seen_of(&g[0]), vec![6]);
}

#[test]
fn replies_carry_request_ids_and_fresh_ids() {
    let mut n1 = BroadcastNode::from_init(init("n1", &["n1"]));
    let out = n1.handle(msg("c1", "n1", Some(41), BroadcastPayload::Read)).ok().unwrap();
    assert_eq!(out[0].body.in_reply_to, Some(41));
    assert_eq!(out[0].body.id, Some(1));
    let out = n1.handle(msg("c1", "n1", Some(42), BroadcastPayload::Read)).ok().unwrap();
    assert_eq!(out[0].body.in_reply_to, Some(42));
    assert_eq!(out[0].body.id, Some(2));
}

#[test]
fn replies_and_end_of_input_are_ignored() {
    let mut n1 = BroadcastNode::from_init(init("n1", &["n1"]));
    assert!(matches!(n1.handle(msg("c1", "n1", None, BroadcastPayload::BroadcastOk)), Ok(ref v) if v.is_empty()));
    assert!(matches!(n1.handle(msg("c1", "n1", None, BroadcastPayload::TopologyOk)), Ok(ref v) if v.is_empty()));
    assert!(matches!(n1.handle(msg("c1", "n1", None, BroadcastPayload::ReadOk { messages: vec![1] })), Ok(ref v) if v.is_empty()));
    assert!(matches!(n1.handle(Event::EOF), Ok(ref v) if v.is_empty()));
    assert_eq!(read_values(&mut n1), Vec::<usize>::new());
    assert!(tick(&mut n1).is_empty());
}

#[test]
fn line_of_three_converges() {
    let all = ["n1", "n2", "n3"];
    let graph: [(&str, &[&str]); 3] = [("n1", &["n2"]), ("n2", &["n1", "n3"]), ("n3", &["n2"])];
    let mut nodes: Vec<BroadcastNode> = all.iter().map(|me| ready(me, &all, &graph)).collect();
    nodes[0].handle(msg("c1", "n1", Some(1), BroadcastPayload::Broadcast { message: 10 })).ok();
    nodes[2].handle(msg("c1", "n3", Some(1), BroadcastPayload::Broadcast { message: 30 })).ok();
    for _ in 0..3 {
        let mut sent = Vec::new();
        for n in nodes.iter_mut() {
            sent.extend(tick(n));
        }
        for m in sent {
            let idx = all.iter().position(|x| *x == m.dst).unwrap();
            deliver(&mut nodes[idx], m);
        }
    }
    for n in nodes.iter_mut() {
        assert_eq!(read_values(n), vec![10, 30]);
    }
}

#[test]
fn failed_topology_keeps_the_old_neighbours() {
    let mut n1 = ready("n1", &["n1", "n2"], &[("n1", &["n2"])]);
    n1.handle(msg("c1", "n1", Some(2), BroadcastPayload::Broadcast { message: 8 })).ok();
    let r = n1.handle(msg("c0", "n1", Some(3), topology(&[("n2", &["n1"])])));
    assert!(matches!(r, Err(NodeError::NoTopology)));
    let g = tick(&mut n1);
    assert_eq!(g.len(), 1);
    assert_eq!(g[0].dst, "n2");
    assert_eq!(seen_of(&g[0]), vec![8]);
    assert_eq!(read_values(&mut n1), vec![8]);
}

#[test]
fn node_is_never_its_own_neighbour() {
    let mut n1 = ready("n1", &["n1", "n2", "n3"], &[("n1", &["n1", "n2", "n1", "n3"])]);
    n1.handle(msg("c1", "n1", Some(2), BroadcastPayload::Broadcast { message: 1 })).ok();
    let g = tick(&mut n1);
    let dsts: Vec<String> = g.iter().map(|m| m.dst.clone()).collect();
    assert_eq!(dsts, vec!["n2".to_string(), "n3".to_string()]);
}

#[test]
fn gossip_takes_no_message_id() {
    let mut n1 = BroadcastNode::from_init(init("n1", &["n1", "n2"]));
    n1.handle(msg("n2", "n1", None, BroadcastPayload::Gossip { seen: vec![1] })).ok();
    n1.handle(msg("c1", "n1", None, BroadcastPayload::BroadcastOk)).ok();
    let out = n1.handle(msg("c1", "n1", Some(5), BroadcastPayload::Read)).ok().unwrap();
    assert_eq!(out[0].body.id, Some(1));
}
