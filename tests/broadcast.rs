use gossip_node::node::{Action, BroadcastNode, Payload};

fn s(x: &str) -> String {
    x.to_string()
}

fn sorted(mut v: Vec<u32>) -> Vec<u32> {
    v.sort();
    v
}

fn topology(entries: &[(&str, &[&str])]) -> Payload {
    Payload::Topology {
        topology: entries
            .iter()
            .map(|(k, ns)| (s(k), ns.iter().map(|n| s(n)).collect()))
            .collect(),
    }
}

fn line() -> Payload {
    topology(&[("a", &["b"]), ("b", &["a", "c"]), ("c", &["b"])])
}

fn node(id: &str) -> BroadcastNode {
    let mut n = BroadcastNode::from_init(s(id));
    let out = n.step(&s("controller"), line());
    assert_eq!(out, vec![Action::Reply(Payload::TopologyOk)]);
    n
}

fn read(n: &mut BroadcastNode) -> (Vec<Action>, Vec<u32>) {
    let mut out = n.step(&s("client"), Payload::Read);
    match out.pop() {
        Some(Action::Reply(Payload::ReadOk { messages })) => (out, sorted(messages)),
        other => panic!("read gave {:?}", other),
    }
}

fn gossip_to(actions: &[Action], dest: &str) -> Option<Vec<u32>> {
    actions.iter().find_map(|a| match a {
        Action::Send { dest: d, payload: Payload::Gossip { seen } } if d == dest => {
            Some(sorted(seen.clone()))
        }
        _ => None,
    })
}

#[test]
fn three_nodes_on_a_line() {
    let mut a = node("a");
    let mut b = node("b");
    let mut c = node("c");

    let out = a.step(&s("client"), Payload::Broadcast { message: 7 });
    assert_eq!(out[0], Action::Reply(Payload::BroadcastOk));
    assert_eq!(out.len(), 2);
    assert_eq!(sorted(a.messages()), vec![7]);
    let to_b = gossip_to(&out, "b").unwrap();
    assert_eq!(to_b, vec![7]);

    let (_, at_c) = read(&mut c);
    assert_eq!(at_c, Vec::<u32>::new());

    let reply = b.step(&s("a"), Payload::Gossip { seen: to_b });
    assert_eq!(sorted(b.messages()), vec![7]);
    assert_eq!(reply, vec![Action::Reply(Payload::GossipOk { seen: vec![7] })]);

    let (round, at_b) = read(&mut b);
    assert_eq!(at_b, vec![7]);
    assert_eq!(gossip_to(&round, "a"), Some(vec![]));
    let to_c = gossip_to(&round, "c").unwrap();
    assert_eq!(to_c, vec![7]);

    c.step(&s("b"), Payload::Gossip { seen: to_c });
    let (_, at_c) = read(&mut c);
    assert_eq!(at_c, vec![7]);
}

#[test]
fn broadcast_twice_keeps_one_copy() {
    let mut a = node("a");
    a.step(&s("client"), Payload::Broadcast { message: 5 });
    a.step(&s("client"), Payload::Broadcast { message: 5 });
    a.step(&s("b"), Payload::Gossip { seen: vec![5] });
    a.step(&s("b"), Payload::GossipOk { seen: vec![5] });
    assert_eq!(a.messages(), vec![5]);
}

#[test]
fn confirmed_value_is_not_resent() {
    let mut a = node("a");
    let out = a.step(&s("client"), Payload::Broadcast { message: 7 });
    assert_eq!(gossip_to(&out, "b"), Some(vec![7]));
    a.step(&s("b"), Payload::GossipOk { seen: vec![7] });
    let (round, _) = read(&mut a);
    assert_eq!(gossip_to(&round, "b"), Some(vec![]));
    let out = a.step(&s("client"), Payload::Broadcast { message: 8 });
    assert_eq!(gossip_to(&out, "b"), Some(vec![8]));
}

#[test]
fn value_from_a_neighbor_is_not_sent_back() {
    let mut b = node("b");
    b.step(&s("a"), Payload::Gossip { seen: vec![3, 4] });
    let (round, values) = read(&mut b);
    assert_eq!(values, vec![3, 4]);
    assert_eq!(gossip_to(&round, "a"), Some(vec![]));
    assert_eq!(gossip_to(&round, "c"), Some(vec![3, 4]));
}

#[test]
fn gossip_reply_names_acknowledged_and_offered_values() {
    let mut b = node("b");
    b.step(&s("client"), Payload::Broadcast { message: 1 });
    b.step(&s("client"), Payload::Broadcast { message: 2 });
    b.step(&s("a"), Payload::GossipOk { seen: vec![1] });
    let out = b.step(&s("a"), Payload::Gossip { seen: vec![3] });
    match &out[..] {
        [Action::Reply(Payload::GossipOk { seen })] => assert_eq!(sorted(seen.clone()), vec![1, 3]),
        other => panic!("unexpected {:?}", other),
    }
    assert_eq!(sorted(b.messages()), vec![1, 2, 3]);
}

#[test]
fn unknown_sender_is_ignored() {
    let mut a = node("a");
    let out = a.step(&s("z"), Payload::Gossip { seen: vec![9] });
    assert!(out.is_empty());
    let out = a.step(&s("z"), Payload::GossipOk { seen: vec![9] });
    assert!(out.is_empty());
    assert!(a.messages().is_empty());
}

#[test]
fn isolated_node_answers_without_gossip() {
    let mut d = BroadcastNode::from_init(s("d"));
    let out = d.step(&s("controller"), line());
    assert_eq!(out, vec![Action::Reply(Payload::TopologyOk)]);
    let out = d.step(&s("client"), Payload::Broadcast { message: 11 });
    assert_eq!(out, vec![Action::Reply(Payload::BroadcastOk)]);
    let (round, values) = read(&mut d);
    assert!(round.is_empty());
    assert_eq!(values, vec![11]);
}

#[test]
fn empty_topology_entry_isolates_too() {
    let mut d = BroadcastNode::from_init(s("d"));
    d.step(&s("controller"), topology(&[("d", &[]), ("a", &["d"])]));
    let out = d.step(&s("client"), Payload::Broadcast { message: 1 });
    assert_eq!(out, vec![Action::Reply(Payload::BroadcastOk)]);
}

#[test]
fn empty_rounds_can_be_skipped() {
    let mut b = node("b");
    b.set_skip_empty_gossip(true);
    let (round, _) = read(&mut b);
    assert!(round.is_empty());
    b.step(&s("a"), Payload::Gossip { seen: vec![6] });
    let (round, _) = read(&mut b);
    assert_eq!(round.len(), 1);
    assert_eq!(gossip_to(&round, "c"), Some(vec![6]));
}

#[test]
fn every_neighbor_gets_a_round_by_default() {
    let mut b = node("b");
    let (round, values) = read(&mut b);
    assert!(values.is_empty());
    assert_eq!(
        round,
        vec![
            Action::Send { dest: s("a"), payload: Payload::Gossip { seen: vec![] } },
            Action::Send { dest: s("c"), payload: Payload::Gossip { seen: vec![] } },
        ]
    );
}

#[test]
fn topology_again_keeps_acknowledgments() {
    let mut a = node("a");
    a.step(&s("client"), Payload::Broadcast { message: 7 });
    a.step(&s("b"), Payload::GossipOk { seen: vec![7] });
    let out = a.step(&s("controller"), topology(&[("a", &["b", "c", "b"])]));
    assert_eq!(out, vec![Action::Reply(Payload::TopologyOk)]);
    let (round, _) = read(&mut a);
    assert_eq!(round.len(), 2);
    assert_eq!(gossip_to(&round, "b"), Some(vec![]));
    assert_eq!(gossip_to(&round, "c"), Some(vec![7]));
}

#[test]
fn replies_sent_to_the_node_are_ignored() {
    let mut a = node("a");
    for p in [
        Payload::BroadcastOk,
        Payload::TopologyOk,
        Payload::ReadOk { messages: vec![1] },
    ] {
        assert!(a.step(&s("b"), p).is_empty());
    }
    assert!(a.messages().is_empty());
}

fn deliver_all(nodes: &mut Vec<(String, BroadcastNode)>, mut queue: Vec<(String, String, Payload)>) {
    while !queue.is_empty() {
        let (src, dest, payload) = queue.remove(0);
        let Some(at) = nodes.iter().position(|(id, _)| *id == dest) else {
            continue;
        };
        for action in nodes[at].1.step(&src, payload) {
            match action {
                Action::Reply(p) => queue.push((dest.clone(), src.clone(), p)),
                Action::Send { dest: to, payload } => queue.push((dest.clone(), to, payload)),
            }
        }
    }
}

#[test]
fn line_of_four_converges() {
    let t = topology(&[("a", &["b"]), ("b", &["a", "c"]), ("c", &["b", "d"]), ("d", &["c"])]);
    let mut nodes: Vec<(String, BroadcastNode)> = Vec::new();
    for id in ["a", "b", "c", "d"] {
        let mut n = BroadcastNode::from_init(s(id));
        let t = match &t {
            Payload::Topology { topology } => Payload::Topology { topology: topology.clone() },
            _ => unreachable!(),
        };
        n.step(&s("controller"), t);
        nodes.push((s(id), n));
    }
    let mut queue = Vec::new();
    queue.push((s("client"), s("a"), Payload::Broadcast { message: 1 }));
    queue.push((s("client"), s("d"), Payload::Broadcast { message: 2 }));
    for _ in 0..4 {
        for id in ["a", "b", "c", "d"] {
            queue.push((s("client"), s(id), Payload::Read));
        }
        deliver_all(&mut nodes, std::mem::take(&mut queue));
    }
    for (_, n) in &nodes {
        assert_eq!(sorted(n.messages()), vec![1, 2]);
    }
}
