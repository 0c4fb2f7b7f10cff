use rtrom::{Body, EchoNode, EchoPayload, Event, Init, Message, NodeError, UniqueNode, UniquePayload};

fn request<P>(payload: P) -> Message<P> {
    Message {
        src: "c1".to_string(),
        dst: "n1".to_string(),
        body: Body { id: Some(12), in_reply_to: None, payload },
    }
}

fn init() -> Init {
    Init { node_id: "n1".to_string(), node_ids: vec!["n1".to_string()] }
}

#[test]
fn reply_with_counter_is_stamped() {
    let mut counter: usize = 4;
    let r = request(7u32).into_reply(Some(&mut counter));
    assert_eq!(r.src, "n1");
    assert_eq!(r.dst, "c1");
    assert_eq!(r.body.in_reply_to, Some(12));
    assert_eq!(r.body.id, Some(4));
    assert_eq!(r.body.payload, 7);
    assert_eq!(counter, 5);
}

#[test]
fn reply_without_counter_is_unstamped() {
    let r = request("x").into_reply(None);
    assert_eq!(r.body.id, None);
    assert_eq!(r.body.in_reply_to, Some(12));
    assert_eq!(r.src, "n1");
}

#[test]
fn echo_sends_text_back() {
    let mut n = EchoNode::from_init(init());
    let out = n.handle(Event::Message(request(EchoPayload::Echo { echo: "hi".to_string() }))).ok().unwrap();
    assert_eq!(out.len(), 1);
    assert_eq!(out[0].dst, "c1");
    assert_eq!(out[0].body.id, Some(12));
    assert_eq!(out[0].body.in_reply_to, Some(12));
    assert!(matches!(out[0].body.payload, EchoPayload::EchoOk { ref echo } if echo == "hi"));
    assert_eq!(n.id, 2);
}

#[test]
fn echo_acknowledges_init_and_rejects_init_ok() {
    let mut n = EchoNode::from_init(init());
    let p = EchoPayload::Init { node_id: "n1".to_string(), node_ids: vec![] };
    let out = n.handle(Event::Message(request(p))).ok().unwrap();
    assert_eq!(out[0].body.id, Some(1));
    assert_eq!(out[0].body.in_reply_to, Some(12));
    assert!(matches!(out[0].body.payload, EchoPayload::InitOk));
    assert!(matches!(n.handle(Event::Message(request(EchoPayload::InitOk))), Err(NodeError::InitOk)));
    assert!(matches!(n.handle(Event::Injected(())), Err(NodeError::UnexpectedEvent)));
    assert!(matches!(n.handle(Event::EOF), Ok(ref v) if v.is_empty()));
}

#[test]
fn unique_ids_join_node_and_counter() {
    let mut n = UniqueNode::from_init(init());
    let out = n.handle(Event::Message(request(UniquePayload::Generate))).ok().unwrap();
    assert!(matches!(out[0].body.payload, UniquePayload::GenerateOk { ref guid } if guid == "n1-1"));
    assert_eq!(out[0].body.in_reply_to, Some(12));
    for _ in 0..9 {
        n.handle(Event::Message(request(UniquePayload::Generate))).ok();
    }
    let out = n.handle(Event::Message(request(UniquePayload::Generate))).ok().unwrap();
    assert!(matches!(out[0].body.payload, UniquePayload::GenerateOk { ref guid } if guid == "n1-11"));
    assert!(matches!(n.handle(Event::Message(request(UniquePayload::GenerateOk { guid: String::new() }))), Ok(ref v) if v.is_empty()));
    assert!(matches!(n.handle(Event::Injected(())), Err(NodeError::UnexpectedEvent)));
}
