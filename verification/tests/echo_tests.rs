use dist_sys::codec::encode_echo;
use dist_sys::echo::{EchoNode, EchoPayload};
use dist_sys::{Body, Init, Message, ProtocolError};

fn parse(bytes: Vec<u8>) -> serde_json::Value {
    serde_json::from_str(&String::from_utf8(bytes).unwrap()).unwrap()
}

#[test]
fn echo_session_emits_init_ok_then_echo_ok() {
    // The first record emitted is the init_ok answering the init; the
    // echo follows, each line parsing as one complete record.
    let mut node = EchoNode::new();

    let init = Message {
        src: "c1".to_string(),
        dst: "n1".to_string(),
        body: Body {
            id: Some(1),
            in_reply_to: None,
            payload: EchoPayload::Init {
                node_id: "n1".to_string(),
                node_ids: vec!["n1".to_string()],
            },
        },
    };
    let first = node.step(init).unwrap().unwrap();
    let v = parse(encode_echo(&first));
    assert_eq!(v["src"].as_str().unwrap(), "n1");
    assert_eq!(v["dest"].as_str().unwrap(), "c1");
    assert_eq!(v["body"]["type"].as_str().unwrap(), "init_ok");
    assert_eq!(v["body"]["in_reply_to"].as_u64().unwrap(), 1);
    assert_eq!(v["body"]["msg_id"].as_u64().unwrap(), 0);

    let echo = Message {
        src: "c1".to_string(),
        dst: "n1".to_string(),
        body: Body {
            id: Some(2),
            in_reply_to: None,
            payload: EchoPayload::Echo { echo: "hi".to_string() },
        },
    };
    let second = node.step(echo).unwrap().unwrap();
    let v = parse(encode_echo(&second));
    assert_eq!(v["body"]["type"].as_str().unwrap(), "echo_ok");
    assert_eq!(v["body"]["in_reply_to"].as_u64().unwrap(), 2);
    assert_eq!(v["body"]["echo"].as_str().unwrap(), "hi");
    assert_eq!(v["body"]["msg_id"].as_u64().unwrap(), 1);
}

#[test]
fn runtime_echo_replies_start_after_the_init_ok() {
    // In the runtime composition the init_ok has already taken sequence
    // number 0, so the engine's first reply must carry 1.
    let mut node = EchoNode::from_init(Init {
        node_id: "n1".to_string(),
        node_ids: vec!["n1".to_string()],
    });
    let req = Message {
        src: "c1".to_string(),
        dst: "n1".to_string(),
        body: Body {
            id: Some(2),
            in_reply_to: None,
            payload: EchoPayload::Echo { echo: "hi".to_string() },
        },
    };
    let reply = node.step(req).unwrap().unwrap();
    assert_eq!(reply.body.id, Some(1));
    assert_eq!(reply.body.in_reply_to, Some(2));
}

#[test]
fn echo_replies_swap_the_envelope() {
    let mut node = EchoNode::new();
    let req = Message {
        src: "c9".to_string(),
        dst: "n4".to_string(),
        body: Body {
            id: Some(77),
            in_reply_to: None,
            payload: EchoPayload::Echo { echo: "x".to_string() },
        },
    };
    let reply = node.step(req).unwrap().unwrap();
    assert_eq!(reply.src, "n4");
    assert_eq!(reply.dst, "c9");
    assert_eq!(reply.body.in_reply_to, Some(77));
    assert!(matches!(reply.body.payload, EchoPayload::EchoOk { .. }));
}

#[test]
fn stray_init_ok_is_a_protocol_violation() {
    let mut node = EchoNode::new();
    let req = Message {
        src: "c1".to_string(),
        dst: "n1".to_string(),
        body: Body { id: Some(1), in_reply_to: None, payload: EchoPayload::InitOk },
    };
    assert_eq!(node.step(req).unwrap_err(), ProtocolError::UnexpectedReply);
}

#[test]
fn stray_echo_ok_is_ignored() {
    let mut node = EchoNode::new();
    let req = Message {
        src: "c1".to_string(),
        dst: "n1".to_string(),
        body: Body {
            id: Some(1),
            in_reply_to: Some(0),
            payload: EchoPayload::EchoOk { echo: "x".to_string() },
        },
    };
    assert!(node.step(req).unwrap().is_none());
}

#[test]
fn echo_sequence_numbers_increase() {
    let mut node = EchoNode::new();
    let mut last: Option<u64> = None;
    for k in 0..5u64 {
        let req = Message {
            src: "c1".to_string(),
            dst: "n1".to_string(),
            body: Body {
                id: Some(k as usize),
                in_reply_to: None,
                payload: EchoPayload::Echo { echo: "t".to_string() },
            },
        };
        let reply = node.step(req).unwrap().unwrap();
        let mid = reply.body.id.unwrap() as u64;
        if let Some(prev) = last {
            assert!(mid > prev);
        }
        last = Some(mid);
    }
}
