use dist_sys::counter::{
    is_missing_key_error, str_contains, sum_read_values, AddFlow, AddPhase, CounterNode, KvAction,
    KvPayload, ReadOutcome, RpcOutcome,
};
use dist_sys::{Body, Init, Message};
use std::collections::HashMap;

/// A stand-in for the sequentially consistent key-value service.
struct FakeKv {
    data: HashMap<String, usize>,
}

impl FakeKv {
    fn new() -> Self {
        FakeKv { data: HashMap::new() }
    }

    fn apply(&mut self, payload: &KvPayload) -> RpcOutcome {
        match payload {
            KvPayload::Read { key } => match self.data.get(key) {
                Some(v) => RpcOutcome::Value(*v),
                None => RpcOutcome::Failure("key does not exist".to_string()),
            },
            KvPayload::Write { key, value } => {
                self.data.insert(key.clone(), *value);
                RpcOutcome::Value(0)
            },
            KvPayload::Cas { key, from, to } => match self.data.get(key) {
                Some(v) if v == from => {
                    self.data.insert(key.clone(), *to);
                    RpcOutcome::Value(0)
                },
                Some(_) => RpcOutcome::Failure("cas mismatch".to_string()),
                None => RpcOutcome::Failure("key does not exist".to_string()),
            },
            _ => panic!("not a request"),
        }
    }
}

fn boot(name: &str, cluster: &[&str], kv: &mut FakeKv) -> CounterNode {
    let (node, init_write) = CounterNode::from_init(Init {
        node_id: name.to_string(),
        node_ids: cluster.iter().map(|s| s.to_string()).collect(),
    });
    assert_eq!(init_write.dst, "seq-kv");
    // Sequence number 0 went to the init_ok; the initial write takes 1.
    assert_eq!(init_write.body.id, Some(1));
    kv.apply(&init_write.body.payload);
    node
}

/// Drive one client add to completion against the fake service, routing
/// every response through the correlation table.
fn run_add(node: &mut CounterNode, kv: &mut FakeKv, delta: usize) {
    let key = node.node.clone();
    let (mut flow, mut action) = AddFlow::begin(delta);
    loop {
        let request = match action {
            KvAction::Finish => break,
            KvAction::Read => node.begin_kv_read(&key),
            KvAction::Write { value } => node.begin_kv_write(&key, value),
            KvAction::Cas { from, to } => node.begin_kv_cas(&key, from, to),
        };
        let outcome = kv.apply(&request.body.payload);
        // The service answers; the correlation table must hand the signal
        // to this flow exactly once.
        let response = Message {
            src: "seq-kv".to_string(),
            dst: node.node.clone(),
            body: Body {
                id: None,
                in_reply_to: request.body.id,
                payload: match &outcome {
                    RpcOutcome::Value(v) => {
                        if matches!(request.body.payload, KvPayload::Read { .. }) {
                            KvPayload::ReadOk { value: *v }
                        } else if matches!(request.body.payload, KvPayload::Cas { .. }) {
                            KvPayload::CasOk
                        } else {
                            KvPayload::WriteOk
                        }
                    },
                    RpcOutcome::Failure(t) => KvPayload::Error { code: 20, text: t.clone() },
                    RpcOutcome::Lost => panic!("the fake service always answers"),
                },
            },
        };
        let (mid, signal) = node.on_service_message(response).expect("response was pending");
        assert_eq!(Some(mid), request.body.id);
        let signalled = match signal {
            Ok(v) => RpcOutcome::Value(v),
            Err(t) => RpcOutcome::Failure(t),
        };
        let (next_flow, next_action) = flow.resume(signalled);
        flow = next_flow;
        action = next_action;
    }
    assert!(matches!(flow.phase, AddPhase::Complete));
}

/// Fan a read out over the cluster and sum the values.
fn run_read(node: &mut CounterNode, kv: &mut FakeKv) -> usize {
    let keys = node.node_ids.clone();
    let mut outcomes: Vec<ReadOutcome> = Vec::new();
    for key in &keys {
        let request = node.begin_kv_read(key);
        let outcome = kv.apply(&request.body.payload);
        let response = Message {
            src: "seq-kv".to_string(),
            dst: node.node.clone(),
            body: Body {
                id: None,
                in_reply_to: request.body.id,
                payload: match outcome {
                    RpcOutcome::Value(v) => KvPayload::ReadOk { value: v },
                    RpcOutcome::Failure(t) => KvPayload::Error { code: 20, text: t },
                    RpcOutcome::Lost => panic!("the fake service always answers"),
                },
            },
        };
        match node.on_service_message(response) {
            Some((_, Ok(v))) => outcomes.push(ReadOutcome::Value(v)),
            Some((_, Err(_))) | None => outcomes.push(ReadOutcome::Unavailable),
        }
    }
    sum_read_values(&outcomes).expect("the total fits")
}

#[test]
fn three_nodes_converge_to_the_sum_of_deltas() {
    let mut kv = FakeKv::new();
    let mut n1 = boot("n1", &["n1", "n2", "n3"], &mut kv);
    let mut n2 = boot("n2", &["n1", "n2", "n3"], &mut kv);
    let mut n3 = boot("n3", &["n1", "n2", "n3"], &mut kv);

    run_add(&mut n1, &mut kv, 3);
    run_add(&mut n2, &mut kv, 4);
    run_add(&mut n3, &mut kv, 5);

    assert_eq!(run_read(&mut n1, &mut kv), 12);
    assert_eq!(run_read(&mut n2, &mut kv), 12);
    assert_eq!(run_read(&mut n3, &mut kv), 12);
}

#[test]
fn serialized_adds_lose_no_update() {
    let mut kv = FakeKv::new();
    let mut n1 = boot("n1", &["n1"], &mut kv);
    run_add(&mut n1, &mut kv, 1);
    run_add(&mut n1, &mut kv, 1);
    assert_eq!(kv.data["n1"], 2);
    assert_eq!(run_read(&mut n1, &mut kv), 2);
}

#[test]
fn add_replies_follow_the_envelope() {
    let mut kv = FakeKv::new();
    let mut n1 = boot("n1", &["n1"], &mut kv);
    let req = Message {
        src: "c1".to_string(),
        dst: "n1".to_string(),
        body: Body {
            id: Some(5),
            in_reply_to: None,
            payload: dist_sys::counter::CounterPayload::Add { delta: 3 },
        },
    };
    let before = n1.id;
    let reply = n1.reply_add_ok(req);
    assert_eq!(reply.src, "n1");
    assert_eq!(reply.dst, "c1");
    assert_eq!(reply.body.in_reply_to, Some(5));
    assert_eq!(reply.body.id, Some(before));
    assert!(matches!(reply.body.payload, dist_sys::counter::CounterPayload::AddOk));
}

#[test]
fn zero_delta_completes_without_touching_the_service() {
    let (flow, action) = AddFlow::begin(0);
    assert!(matches!(flow.phase, AddPhase::Complete));
    assert!(matches!(action, KvAction::Finish));
}

#[test]
fn a_missing_key_is_created_at_the_delta() {
    let mut kv = FakeKv::new();
    let (mut n1, _ignored_init_write) = CounterNode::from_init(Init {
        node_id: "n1".to_string(),
        node_ids: vec!["n1".to_string()],
    });
    // The initialization write was lost: the first read finds no key, so
    // the flow creates it at the delta.
    run_add(&mut n1, &mut kv, 7);
    assert_eq!(kv.data["n1"], 7);
}

#[test]
fn a_lost_response_retries_with_a_fresh_read() {
    let (flow, action) = AddFlow::begin(2);
    assert!(matches!(action, KvAction::Read));
    let (flow, action) = flow.resume(RpcOutcome::Lost);
    assert!(matches!(flow.phase, AddPhase::AwaitRead));
    assert!(matches!(action, KvAction::Read));
    let (flow, action) = flow.resume(RpcOutcome::Value(10));
    assert!(matches!(action, KvAction::Cas { from: 10, to: 12 }));
    let (flow, action) = flow.resume(RpcOutcome::Failure("cas mismatch".to_string()));
    assert!(matches!(flow.phase, AddPhase::AwaitRead));
    assert!(matches!(action, KvAction::Read));
    let (flow, action) = flow.resume(RpcOutcome::Value(11));
    assert!(matches!(action, KvAction::Cas { from: 11, to: 13 }));
    let (flow, action) = flow.resume(RpcOutcome::Value(0));
    assert!(matches!(flow.phase, AddPhase::Complete));
    assert!(matches!(action, KvAction::Finish));
}

#[test]
fn a_response_is_delivered_at_most_once() {
    let mut kv = FakeKv::new();
    let mut n1 = boot("n1", &["n1"], &mut kv);
    let request = n1.begin_kv_read(&"n1".to_string());
    let response = Message {
        src: "seq-kv".to_string(),
        dst: "n1".to_string(),
        body: Body {
            id: None,
            in_reply_to: request.body.id,
            payload: KvPayload::ReadOk { value: 0 },
        },
    };
    let again = response.clone();
    assert!(n1.on_service_message(response).is_some());
    assert!(n1.on_service_message(again).is_none());
}

#[test]
fn an_unsolicited_response_is_dropped() {
    let mut kv = FakeKv::new();
    let mut n1 = boot("n1", &["n1"], &mut kv);
    let response = Message {
        src: "seq-kv".to_string(),
        dst: "n1".to_string(),
        body: Body { id: None, in_reply_to: Some(999), payload: KvPayload::CasOk },
    };
    assert!(n1.on_service_message(response).is_none());
    let no_slot = Message {
        src: "seq-kv".to_string(),
        dst: "n1".to_string(),
        body: Body { id: None, in_reply_to: None, payload: KvPayload::WriteOk },
    };
    assert!(n1.on_service_message(no_slot).is_none());
}

#[test]
fn error_text_reaches_the_flow() {
    let mut kv = FakeKv::new();
    let mut n1 = boot("n1", &["n1"], &mut kv);
    let request = n1.begin_kv_read(&"n1".to_string());
    let response = Message {
        src: "seq-kv".to_string(),
        dst: "n1".to_string(),
        body: Body {
            id: None,
            in_reply_to: request.body.id,
            payload: KvPayload::Error { code: 22, text: "cas mismatch".to_string() },
        },
    };
    match n1.on_service_message(response) {
        Some((_, Err(text))) => assert_eq!(text, "cas mismatch"),
        _ => panic!("expected the error text"),
    }
}

#[test]
fn missing_key_errors_are_recognized() {
    assert!(is_missing_key_error("key does not exist"));
    assert!(is_missing_key_error("the key n1 does not exist here"));
    assert!(!is_missing_key_error("cas mismatch"));
    assert!(!is_missing_key_error(""));
}

#[test]
fn substring_search_agrees_with_std() {
    let cases = [
        ("abcabc", "cab"),
        ("abcabc", "abcd"),
        ("", ""),
        ("x", ""),
        ("", "x"),
        ("aaaa", "aaa"),
        ("ababab", "abab"),
    ];
    for (hay, pat) in cases {
        assert_eq!(str_contains(hay, pat), hay.contains(pat), "{hay} / {pat}");
    }
}

#[test]
fn read_sums_skip_unavailable_keys() {
    let outcomes =
        vec![ReadOutcome::Value(3), ReadOutcome::Unavailable, ReadOutcome::Value(4)];
    assert_eq!(sum_read_values(&outcomes), Some(7));
    let empty: Vec<ReadOutcome> = Vec::new();
    assert_eq!(sum_read_values(&empty), Some(0));
}

#[test]
fn read_sums_report_overflow() {
    let outcomes = vec![ReadOutcome::Value(usize::MAX), ReadOutcome::Value(1)];
    assert_eq!(sum_read_values(&outcomes), None);
}

#[test]
fn settle_delay_depends_on_the_sequence_number() {
    let with_id = Message {
        src: "c1".to_string(),
        dst: "n1".to_string(),
        body: Body {
            id: Some(1),
            in_reply_to: None,
            payload: dist_sys::counter::CounterPayload::Read,
        },
    };
    let without_id = Message {
        src: "c1".to_string(),
        dst: "n1".to_string(),
        body: Body {
            id: None,
            in_reply_to: None,
            payload: dist_sys::counter::CounterPayload::Read,
        },
    };
    assert_eq!(CounterNode::read_settle_millis(&with_id), 500);
    assert_eq!(CounterNode::read_settle_millis(&without_id), 200);
}
