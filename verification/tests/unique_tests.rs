use dist_sys::unique::{make_guid, UniqueNode, UniquePayload};
use dist_sys::{Body, Init, Message};

fn generate(node: &mut UniqueNode) -> Message<UniquePayload> {
    let req = Message {
        src: "c1".to_string(),
        dst: node.node.clone(),
        body: Body { id: Some(1), in_reply_to: None, payload: UniquePayload::Generate },
    };
    node.step(req).unwrap()
}

#[test]
fn three_generates_yield_three_distinct_prefixed_ids() {
    let init = Init { node_id: "n2".to_string(), node_ids: vec!["n2".to_string()] };
    let mut node = UniqueNode::from_init(init);
    let mut ids: Vec<String> = Vec::new();
    for _ in 0..3 {
        let reply = generate(&mut node);
        match reply.body.payload {
            UniquePayload::GenerateOk { guid } => ids.push(guid),
            _ => panic!("expected generate_ok"),
        }
    }
    assert_eq!(ids, vec!["n2-1".to_string(), "n2-2".to_string(), "n2-3".to_string()]);
    assert_ne!(ids[0], ids[1]);
    assert_ne!(ids[1], ids[2]);
    assert_ne!(ids[0], ids[2]);
    for id in &ids {
        assert!(id.starts_with("n2"));
    }
}

#[test]
fn guids_render_the_sequence_number_in_decimal() {
    assert_eq!(make_guid("n1", 0), "n1-0");
    assert_eq!(make_guid("n1", 10), "n1-10");
    assert_eq!(make_guid("node-7", 90210), "node-7-90210");
    assert_eq!(make_guid("n1", usize::MAX), format!("n1-{}", usize::MAX));
}

#[test]
fn guids_differ_across_nodes() {
    let a = make_guid("n1", 12);
    let b = make_guid("n2", 12);
    assert_ne!(a, b);
}

#[test]
fn generate_reply_answers_the_request() {
    let init = Init { node_id: "n5".to_string(), node_ids: vec!["n5".to_string()] };
    let mut node = UniqueNode::from_init(init);
    let req = Message {
        src: "c3".to_string(),
        dst: "n5".to_string(),
        body: Body { id: Some(8), in_reply_to: None, payload: UniquePayload::Generate },
    };
    let reply = node.step(req).unwrap();
    assert_eq!(reply.src, "n5");
    assert_eq!(reply.dst, "c3");
    assert_eq!(reply.body.in_reply_to, Some(8));
    assert_eq!(reply.body.id, Some(1));
}

#[test]
fn stray_generate_ok_is_ignored_but_consumes_a_number() {
    let init = Init { node_id: "n5".to_string(), node_ids: vec!["n5".to_string()] };
    let mut node = UniqueNode::from_init(init);
    let stray = Message {
        src: "c3".to_string(),
        dst: "n5".to_string(),
        body: Body {
            id: Some(8),
            in_reply_to: Some(1),
            payload: UniquePayload::GenerateOk { guid: "x-1".to_string() },
        },
    };
    assert!(node.step(stray).is_none());
    assert_eq!(node.id, 2);
}
