use dist_sys::broadcast::{BroadcastNode, BroadcastPayload, InjectedPayload, TopologyEntry};
use dist_sys::{Body, Event, Init, Message, ProtocolError};

type BEvent = Event<BroadcastPayload, (), InjectedPayload>;

fn client_msg(dst: &str, id: usize, payload: BroadcastPayload) -> BEvent {
    Event::Message(Message {
        src: "c1".to_string(),
        dst: dst.to_string(),
        body: Body { id: Some(id), in_reply_to: None, payload },
    })
}

fn make_node(name: &str, cluster: &[&str]) -> BroadcastNode {
    BroadcastNode::from_init(Init {
        node_id: name.to_string(),
        node_ids: cluster.iter().map(|s| s.to_string()).collect(),
    })
}

fn read_values(node: &mut BroadcastNode) -> Vec<usize> {
    let outs = node.step(client_msg(&node.node.clone(), 99, BroadcastPayload::Read)).unwrap();
    assert_eq!(outs.len(), 1);
    match &outs[0].body.payload {
        BroadcastPayload::ReadOk { messages } => {
            let mut v = messages.clone();
            v.sort();
            v
        },
        _ => panic!("expected read_ok"),
    }
}

#[test]
fn single_node_broadcast_and_read() {
    let mut node = make_node("n1", &["n1"]);

    let outs = node
        .step(client_msg("n1", 1, BroadcastPayload::Topology {
            topology: vec![TopologyEntry { node: "n1".to_string(), neighbors: vec![] }],
        }))
        .unwrap();
    assert!(matches!(outs[0].body.payload, BroadcastPayload::TopologyOk));

    let outs = node.step(client_msg("n1", 2, BroadcastPayload::Broadcast { message: 42 })).unwrap();
    assert!(matches!(outs[0].body.payload, BroadcastPayload::BroadcastOk));
    assert_eq!(outs[0].body.in_reply_to, Some(2));

    assert_eq!(read_values(&mut node), vec![42]);
}

#[test]
fn two_nodes_converge_after_gossip() {
    let mut n1 = make_node("n1", &["n1", "n2"]);
    let mut n2 = make_node("n2", &["n1", "n2"]);
    let topo = vec![
        TopologyEntry { node: "n1".to_string(), neighbors: vec!["n2".to_string()] },
        TopologyEntry { node: "n2".to_string(), neighbors: vec!["n1".to_string()] },
    ];
    n1.step(client_msg("n1", 1, BroadcastPayload::Topology { topology: topo.clone() })).unwrap();
    n2.step(client_msg("n2", 1, BroadcastPayload::Topology { topology: topo })).unwrap();

    n1.step(client_msg("n1", 2, BroadcastPayload::Broadcast { message: 1 })).unwrap();
    n2.step(client_msg("n2", 2, BroadcastPayload::Broadcast { message: 2 })).unwrap();

    // One gossip round each way.
    let from_n1 = n1.step(Event::Injected(InjectedPayload::Gossip)).unwrap();
    for g in from_n1 {
        assert_eq!(g.src, "n1");
        assert_eq!(g.dst, "n2");
        n2.step(Event::Message(g)).unwrap();
    }
    let from_n2 = n2.step(Event::Injected(InjectedPayload::Gossip)).unwrap();
    for g in from_n2 {
        n1.step(Event::Message(g)).unwrap();
    }

    assert_eq!(read_values(&mut n1), vec![1, 2]);
    assert_eq!(read_values(&mut n2), vec![1, 2]);
}

#[test]
fn gossip_carries_everything_novel() {
    let mut n1 = make_node("n1", &["n1", "n2"]);
    n1.step(client_msg("n1", 1, BroadcastPayload::Topology {
        topology: vec![TopologyEntry { node: "n1".to_string(), neighbors: vec!["n2".to_string()] }],
    }))
        .unwrap();
    for (k, v) in [10, 20, 30].iter().enumerate() {
        n1.step(client_msg("n1", 2 + k, BroadcastPayload::Broadcast { message: *v })).unwrap();
    }
    // n2 confirms it has seen 20 by gossiping it back.
    n1.step(Event::Message(Message {
        src: "n2".to_string(),
        dst: "n1".to_string(),
        body: Body { id: None, in_reply_to: None, payload: BroadcastPayload::Gossip { seen: vec![20] } },
    }))
        .unwrap();

    let outs = n1.step(Event::Injected(InjectedPayload::Gossip)).unwrap();
    assert_eq!(outs.len(), 1);
    match &outs[0].body.payload {
        BroadcastPayload::Gossip { seen } => {
            // Everything n2 is not known to hold must ride along; nothing
            // outside n1's own set may.
            assert!(seen.contains(&10));
            assert!(seen.contains(&30));
            for v in seen {
                assert!([10, 20, 30].contains(v));
            }
        },
        _ => panic!("expected gossip"),
    }
}

#[test]
fn gossip_send_does_not_credit_the_peer() {
    let mut n1 = make_node("n1", &["n1", "n2"]);
    n1.step(client_msg("n1", 1, BroadcastPayload::Topology {
        topology: vec![TopologyEntry { node: "n1".to_string(), neighbors: vec!["n2".to_string()] }],
    }))
        .unwrap();
    n1.step(client_msg("n1", 2, BroadcastPayload::Broadcast { message: 7 })).unwrap();

    // Two consecutive rounds: the value must be offered both times, since
    // the peer never confirmed it.
    for _ in 0..2 {
        let outs = n1.step(Event::Injected(InjectedPayload::Gossip)).unwrap();
        match &outs[0].body.payload {
            BroadcastPayload::Gossip { seen } => assert!(seen.contains(&7)),
            _ => panic!("expected gossip"),
        }
    }
}

#[test]
fn read_sets_grow_monotonically() {
    let mut node = make_node("n1", &["n1", "n2"]);
    let mut previous: Vec<usize> = Vec::new();
    for (k, v) in [3, 1, 4, 1, 5].iter().enumerate() {
        node.step(client_msg("n1", 2 + 2 * k, BroadcastPayload::Broadcast { message: *v }))
            .unwrap();
        let now = read_values(&mut node);
        for seen in &previous {
            assert!(now.contains(seen));
        }
        previous = now;
    }
    assert_eq!(previous, vec![1, 3, 4, 5]);
}

#[test]
fn resending_the_same_topology_changes_nothing() {
    let mut node = make_node("n1", &["n1", "n2", "n3"]);
    let topo = vec![TopologyEntry {
        node: "n1".to_string(),
        neighbors: vec!["n2".to_string(), "n3".to_string()],
    }];
    node.step(client_msg("n1", 1, BroadcastPayload::Topology { topology: topo.clone() })).unwrap();
    let first = node.neighborhood.clone();
    node.step(client_msg("n1", 2, BroadcastPayload::Topology { topology: topo })).unwrap();
    assert_eq!(node.neighborhood, first);

    // A different map replaces the neighborhood outright.
    node.step(client_msg("n1", 3, BroadcastPayload::Topology {
        topology: vec![TopologyEntry { node: "n1".to_string(), neighbors: vec!["n3".to_string()] }],
    }))
        .unwrap();
    assert_eq!(node.neighborhood, vec!["n3".to_string()]);
}

#[test]
fn topology_without_self_is_fatal() {
    let mut node = make_node("n1", &["n1", "n2"]);
    let err = node
        .step(client_msg("n1", 1, BroadcastPayload::Topology {
            topology: vec![TopologyEntry { node: "n2".to_string(), neighbors: vec![] }],
        }))
        .unwrap_err();
    assert_eq!(err, ProtocolError::TopologyWithoutSelf);
}

#[test]
fn topology_naming_a_stranger_is_fatal() {
    let mut node = make_node("n1", &["n1", "n2"]);
    let err = node
        .step(client_msg("n1", 1, BroadcastPayload::Topology {
            topology: vec![TopologyEntry { node: "n1".to_string(), neighbors: vec!["nx".to_string()] }],
        }))
        .unwrap_err();
    assert_eq!(err, ProtocolError::UnknownPeer);
}

#[test]
fn gossip_from_a_stranger_is_fatal() {
    let mut node = make_node("n1", &["n1", "n2"]);
    let err = node
        .step(Event::Message(Message {
            src: "nx".to_string(),
            dst: "n1".to_string(),
            body: Body {
                id: None,
                in_reply_to: None,
                payload: BroadcastPayload::Gossip { seen: vec![1] },
            },
        }))
        .unwrap_err();
    assert_eq!(err, ProtocolError::UnknownPeer);
}

#[test]
fn duplicate_broadcasts_store_one_value() {
    let mut node = make_node("n1", &["n1"]);
    node.step(client_msg("n1", 1, BroadcastPayload::Broadcast { message: 9 })).unwrap();
    node.step(client_msg("n1", 2, BroadcastPayload::Broadcast { message: 9 })).unwrap();
    assert_eq!(read_values(&mut node), vec![9]);
}

#[test]
fn gossip_ticks_with_no_neighborhood_are_quiet() {
    let mut node = make_node("n1", &["n1", "n2"]);
    node.step(client_msg("n1", 1, BroadcastPayload::Broadcast { message: 3 })).unwrap();
    let outs = node.step(Event::Injected(InjectedPayload::Gossip)).unwrap();
    assert!(outs.is_empty());
}

#[test]
fn an_empty_gossip_still_goes_out_as_a_keep_alive() {
    let mut node = make_node("n1", &["n1", "n2"]);
    node.step(client_msg("n1", 1, BroadcastPayload::Topology {
        topology: vec![TopologyEntry { node: "n1".to_string(), neighbors: vec!["n2".to_string()] }],
    }))
        .unwrap();
    let outs = node.step(Event::Injected(InjectedPayload::Gossip)).unwrap();
    assert_eq!(outs.len(), 1);
    match &outs[0].body.payload {
        BroadcastPayload::Gossip { seen } => assert!(seen.is_empty()),
        _ => panic!("expected gossip"),
    }
}

#[test]
fn stray_acknowledgements_are_ignored() {
    let mut node = make_node("n1", &["n1"]);
    let outs = node.step(client_msg("n1", 1, BroadcastPayload::BroadcastOk)).unwrap();
    assert!(outs.is_empty());
    let outs = node.step(Event::EOF).unwrap();
    assert!(outs.is_empty());
}
