use dist_sys::codec::{
    encode_broadcast, encode_counter, encode_echo, encode_init, encode_kv, encode_unique,
};
use dist_sys::broadcast::{BroadcastPayload, TopologyEntry};
use dist_sys::counter::{CounterPayload, KvPayload};
use dist_sys::echo::EchoPayload;
use dist_sys::unique::UniquePayload;
use dist_sys::{Body, Init, InitPayload, Message};

fn line(bytes: Vec<u8>) -> String {
    String::from_utf8(bytes).expect("encoded record is valid UTF-8")
}

#[test]
fn init_ok_encodes_exactly() {
    let m = Message {
        src: "n1".to_string(),
        dst: "c1".to_string(),
        body: Body { id: Some(0), in_reply_to: Some(1), payload: InitPayload::InitOk },
    };
    assert_eq!(
        line(encode_init(&m)),
        "{\"src\":\"n1\",\"dest\":\"c1\",\"body\":{\"msg_id\":0,\"in_reply_to\":1,\"type\":\"init_ok\"}}"
    );
}

#[test]
fn init_encodes_exactly() {
    let m = Message {
        src: "c1".to_string(),
        dst: "n1".to_string(),
        body: Body {
            id: Some(1),
            in_reply_to: None,
            payload: InitPayload::Init(Init {
                node_id: "n1".to_string(),
                node_ids: vec!["n1".to_string(), "n2".to_string()],
            }),
        },
    };
    assert_eq!(
        line(encode_init(&m)),
        "{\"src\":\"c1\",\"dest\":\"n1\",\"body\":{\"msg_id\":1,\"in_reply_to\":null,\"type\":\"init\",\"node_id\":\"n1\",\"node_ids\":[\"n1\",\"n2\"]}}"
    );
}

#[test]
fn echo_ok_round_trips_through_a_json_parser() {
    let m = Message {
        src: "n1".to_string(),
        dst: "c1".to_string(),
        body: Body {
            id: Some(1),
            in_reply_to: Some(2),
            payload: EchoPayload::EchoOk { echo: "hi there".to_string() },
        },
    };
    let v: serde_json::Value = serde_json::from_str(&line(encode_echo(&m))).unwrap();
    assert_eq!(v["src"].as_str().unwrap(), "n1");
    assert_eq!(v["dest"].as_str().unwrap(), "c1");
    assert_eq!(v["body"]["msg_id"].as_u64().unwrap(), 1);
    assert_eq!(v["body"]["in_reply_to"].as_u64().unwrap(), 2);
    assert_eq!(v["body"]["type"].as_str().unwrap(), "echo_ok");
    assert_eq!(v["body"]["echo"].as_str().unwrap(), "hi there");
}

#[test]
fn escaping_survives_a_json_parser() {
    let wild = "quote \" backslash \\ newline \n tab \t bell \u{7} high \u{00e9}\u{4e16}";
    let m = Message {
        src: "n1".to_string(),
        dst: "c1".to_string(),
        body: Body {
            id: None,
            in_reply_to: None,
            payload: EchoPayload::Echo { echo: wild.to_string() },
        },
    };
    let encoded = line(encode_echo(&m));
    let v: serde_json::Value = serde_json::from_str(&encoded).unwrap();
    assert_eq!(v["body"]["echo"].as_str().unwrap(), wild);
}

#[test]
fn control_characters_take_numeric_escapes() {
    let m = Message {
        src: "n1".to_string(),
        dst: "c1".to_string(),
        body: Body {
            id: None,
            in_reply_to: None,
            payload: EchoPayload::Echo { echo: "a\u{1}b".to_string() },
        },
    };
    let encoded = line(encode_echo(&m));
    assert!(encoded.contains("a\\u0001b"));
}

#[test]
fn encoded_records_never_contain_a_newline() {
    let wild = "line one\nline two\rmore\u{0}".to_string();
    let m = Message {
        src: "n\n1".to_string(),
        dst: "c1".to_string(),
        body: Body { id: Some(7), in_reply_to: None, payload: EchoPayload::Echo { echo: wild } },
    };
    let bytes = encode_echo(&m);
    assert!(!bytes.contains(&b'\n'));
}

#[test]
fn numbers_encode_in_decimal() {
    let m = Message {
        src: "n1".to_string(),
        dst: "c1".to_string(),
        body: Body {
            id: Some(usize::MAX),
            in_reply_to: Some(0),
            payload: CounterPayload::ReadOk { value: 12345 },
        },
    };
    let encoded = line(encode_counter(&m));
    assert!(encoded.contains(&format!("\"msg_id\":{}", usize::MAX)));
    assert!(encoded.contains("\"in_reply_to\":0"));
    assert!(encoded.contains("\"value\":12345"));
}

#[test]
fn generate_ok_uses_the_wire_name_id() {
    let m = Message {
        src: "n2".to_string(),
        dst: "c1".to_string(),
        body: Body {
            id: Some(1),
            in_reply_to: Some(1),
            payload: UniquePayload::GenerateOk { guid: "n2-1".to_string() },
        },
    };
    let v: serde_json::Value = serde_json::from_str(&line(encode_unique(&m))).unwrap();
    assert_eq!(v["body"]["type"].as_str().unwrap(), "generate_ok");
    assert_eq!(v["body"]["id"].as_str().unwrap(), "n2-1");
}

#[test]
fn gossip_carries_the_seen_array() {
    let m = Message {
        src: "n1".to_string(),
        dst: "n2".to_string(),
        body: Body {
            id: None,
            in_reply_to: None,
            payload: BroadcastPayload::Gossip { seen: vec![5, 1, 9] },
        },
    };
    let v: serde_json::Value = serde_json::from_str(&line(encode_broadcast(&m))).unwrap();
    assert_eq!(v["body"]["type"].as_str().unwrap(), "gossip");
    let seen: Vec<u64> =
        v["body"]["seen"].as_array().unwrap().iter().map(|x| x.as_u64().unwrap()).collect();
    assert_eq!(seen, vec![5, 1, 9]);
    assert!(v["body"]["msg_id"].is_null());
    assert!(v["body"]["in_reply_to"].is_null());
}

#[test]
fn read_ok_carries_the_messages_array() {
    let m = Message {
        src: "n1".to_string(),
        dst: "c1".to_string(),
        body: Body {
            id: Some(3),
            in_reply_to: Some(9),
            payload: BroadcastPayload::ReadOk { messages: vec![42] },
        },
    };
    assert_eq!(
        line(encode_broadcast(&m)),
        "{\"src\":\"n1\",\"dest\":\"c1\",\"body\":{\"msg_id\":3,\"in_reply_to\":9,\"type\":\"read_ok\",\"messages\":[42]}}"
    );
}

#[test]
fn topology_encodes_as_a_json_object() {
    let m = Message {
        src: "c1".to_string(),
        dst: "n1".to_string(),
        body: Body {
            id: Some(2),
            in_reply_to: None,
            payload: BroadcastPayload::Topology {
                topology: vec![
                    TopologyEntry { node: "n1".to_string(), neighbors: vec!["n2".to_string()] },
                    TopologyEntry { node: "n2".to_string(), neighbors: vec!["n1".to_string()] },
                ],
            },
        },
    };
    let v: serde_json::Value = serde_json::from_str(&line(encode_broadcast(&m))).unwrap();
    assert_eq!(v["body"]["type"].as_str().unwrap(), "topology");
    assert_eq!(v["body"]["topology"]["n1"][0].as_str().unwrap(), "n2");
    assert_eq!(v["body"]["topology"]["n2"][0].as_str().unwrap(), "n1");
}

#[test]
fn kv_requests_encode_their_fields() {
    let cas = Message {
        src: "n1".to_string(),
        dst: "seq-kv".to_string(),
        body: Body {
            id: Some(4),
            in_reply_to: None,
            payload: KvPayload::Cas { key: "n1".to_string(), from: 3, to: 7 },
        },
    };
    let v: serde_json::Value = serde_json::from_str(&line(encode_kv(&cas))).unwrap();
    assert_eq!(v["dest"].as_str().unwrap(), "seq-kv");
    assert_eq!(v["body"]["type"].as_str().unwrap(), "cas");
    assert_eq!(v["body"]["key"].as_str().unwrap(), "n1");
    assert_eq!(v["body"]["from"].as_u64().unwrap(), 3);
    assert_eq!(v["body"]["to"].as_u64().unwrap(), 7);

    let err = Message {
        src: "seq-kv".to_string(),
        dst: "n1".to_string(),
        body: Body {
            id: None,
            in_reply_to: Some(4),
            payload: KvPayload::Error { code: 20, text: "key does not exist".to_string() },
        },
    };
    let v: serde_json::Value = serde_json::from_str(&line(encode_kv(&err))).unwrap();
    assert_eq!(v["body"]["type"].as_str().unwrap(), "error");
    assert_eq!(v["body"]["code"].as_u64().unwrap(), 20);
    assert_eq!(v["body"]["text"].as_str().unwrap(), "key does not exist");
}
