//! A cluster of nodes exchanging packets that the network may deliver in
//! any order, more than once, or never.
use vstd::prelude::*;
use crate::guarantees::lemma_step_grows;
use crate::guarantees::lemma_round_shape;
use crate::node::{
    gossip_round, lemma_position, next_state, outputs,
    ActionModel, NodeModel, PayloadModel,
};

verus! {

/// A packet in flight. `covers` is what the sender's store held when it sent
/// a gossip message, and nothing for other packets.
pub struct Packet {
    pub src: Seq<char>,
    pub dest: Seq<char>,
    pub payload: PayloadModel,
    pub covers: Set<u32>,
}

/// The nodes by name, and the packets sent and not yet dropped.
pub struct ClusterModel {
    pub nodes: Map<Seq<char>, NodeModel>,
    pub in_flight: Seq<Packet>,
}

/// The values that a gossip message or its confirmation carries.
pub open spec fn carried(p: PayloadModel) -> Set<u32> {
    match p {
        PayloadModel::Gossip { seen } => seen,
        PayloadModel::GossipOk { seen } => seen,
        _ => Set::empty(),
    }
}

/// Whether `p` is a request a client may send: broadcast, read or topology.
pub open spec fn is_request(p: PayloadModel) -> bool {
    p is Broadcast || p is Read || p is Topology
}

/// The store of node `n`, or nothing where `n` is no node of the cluster.
pub open spec fn store_of(c: ClusterModel, n: Seq<char>) -> Set<u32> {
    if c.nodes.contains_key(n) {
        c.nodes[n].store
    } else {
        Set::empty()
    }
}

/// The packet for an outbound message of node `from`, handling a message of
/// `sender`, with `store` its store after handling it.
pub open spec fn packet_of(from: Seq<char>, sender: Seq<char>, store: Set<u32>, a: ActionModel) -> Packet {
    match a {
        ActionModel::Reply(q) => Packet { src: from, dest: sender, payload: q, covers: Set::empty() },
        ActionModel::Send { dest, payload } => Packet { src: from, dest, payload, covers: store },
    }
}

/// Delivering the packet at place `i` to its destination, which handles it;
/// the packet stays in flight, so it may come again.
pub open spec fn deliver(c: ClusterModel, i: int) -> ClusterModel {
    let p = c.in_flight[i];
    let x = c.nodes[p.dest];
    let x2 = next_state(x, p.src, p.payload);
    ClusterModel {
        nodes: c.nodes.insert(p.dest, x2),
        in_flight: c.in_flight + outputs(x, p.src, p.payload).map_values(
            |a: ActionModel| packet_of(p.dest, p.src, x2.store, a),
        ),
    }
}

/// Losing the packet at place `i`.
pub open spec fn drop_packet(c: ClusterModel, i: int) -> ClusterModel {
    ClusterModel { in_flight: c.in_flight.remove(i), ..c }
}

/// A client's request entering the network.
pub open spec fn inject(c: ClusterModel, p: Packet) -> ClusterModel {
    ClusterModel { in_flight: c.in_flight.push(p), ..c }
}

/// What holds of every reachable cluster: each node is well formed under
/// its own name; what a node records a neighbor as holding, that neighbor
/// holds; a packet carries only values its sender holds; and a gossip
/// message together with its receiver's store covers what its sender held.
pub open spec fn inv(c: ClusterModel) -> bool {
    &&& forall|x: Seq<char>| #[trigger]
        c.nodes.contains_key(x) ==> c.nodes[x].wf() && c.nodes[x].id == x
    &&& forall|x: Seq<char>, y: Seq<char>|
        c.nodes.contains_key(x) && c.nodes.contains_key(y) && #[trigger] c.nodes[x].is_neighbor(y)
            ==> (#[trigger] c.nodes[x].ack_of(y)).subset_of(c.nodes[y].store)
    &&& forall|i: int|
        0 <= i < c.in_flight.len() ==> carried((#[trigger] c.in_flight[i]).payload).subset_of(
            store_of(c, c.in_flight[i].src),
        )
    &&& forall|i: int|
        0 <= i < c.in_flight.len() && c.nodes.contains_key((#[trigger] c.in_flight[i]).dest)
            ==> c.in_flight[i].covers.subset_of(
            carried(c.in_flight[i].payload) + c.nodes[c.in_flight[i].dest].store,
        )
}

/// What a node records of neighbor `v` after one message: what it recorded
/// before, and what that message carried if `v` sent it.
proof fn lemma_step_ack_of(m: NodeModel, src: Seq<char>, p: PayloadModel, v: Seq<char>)
    requires
        m.wf(),
        next_state(m, src, p).is_neighbor(v),
    ensures
        next_state(m, src, p).ack_of(v).subset_of(
            (if m.is_neighbor(v) {
                m.ack_of(v)
            } else {
                Set::empty()
            }) + (if v == src {
                carried(p)
            } else {
                Set::empty()
            }),
        ),
{
    let n = next_state(m, src, p);
    lemma_step_grows(m, src, p);
    let j = choose|j: int| 0 <= j < n.names.len() && n.names[j] == v;
    lemma_position(n, j);
    match p {
        PayloadModel::Topology { topology } => {
            if j < m.names.len() {
                assert(n.names.take(m.names.len() as int)[j] == n.names[j]);
                lemma_position(m, j);
            } else if m.is_neighbor(v) {
                let k = choose|k: int| 0 <= k < m.names.len() && m.names[k] == v;
                assert(n.names.take(m.names.len() as int)[k] == n.names[k]);
            }
        },
        PayloadModel::Gossip { seen } => {
            lemma_position(m, j);
            if m.is_neighbor(src) {
                let s = m.position(src);
            }
        },
        PayloadModel::GossipOk { seen } => {
            lemma_position(m, j);
            if m.is_neighbor(src) {
                let s = m.position(src);
            }
        },
        _ => {
            lemma_position(m, j);
        },
    }
}

/// The body of an outbound message.
pub open spec fn action_payload(a: ActionModel) -> PayloadModel {
    match a {
        ActionModel::Reply(q) => q,
        ActionModel::Send { payload, .. } => payload,
    }
}

/// Every message a node sends carries only values of its new store; one
/// addressed to a neighbor is a gossip message with what that neighbor is
/// not known to hold.
proof fn lemma_output_shape(x: NodeModel, src: Seq<char>, p: PayloadModel, k: int)
    requires
        x.wf(),
        0 <= k < outputs(x, src, p).len(),
    ensures
        carried(action_payload(outputs(x, src, p)[k])).subset_of(next_state(x, src, p).store),
        outputs(x, src, p)[k] matches ActionModel::Send { dest, payload } ==> next_state(
            x,
            src,
            p,
        ).is_neighbor(dest) && payload == (PayloadModel::Gossip {
            seen: next_state(x, src, p).unseen(dest),
        }),
{
    let x2 = next_state(x, src, p);
    match p {
        PayloadModel::Broadcast { message } => {
            if k > 0 {
                assert(outputs(x, src, p)[k] == gossip_round(x2)[k - 1]);
                lemma_round_shape(x2, x2.names, k - 1);
            }
        },
        PayloadModel::Read => {
            if k < gossip_round(x).len() {
                lemma_round_shape(x, x.names, k);
            }
        },
        _ => {},
    }
}

/// Delivering any packet to a node of the cluster keeps the invariant.
pub proof fn lemma_deliver_keeps_inv(c: ClusterModel, i: int)
    requires
        inv(c),
        0 <= i < c.in_flight.len(),
        c.nodes.contains_key(c.in_flight[i].dest),
    ensures
        inv(deliver(c, i)),
{
    let p = c.in_flight[i];
    let x = c.nodes[p.dest];
    let x2 = next_state(x, p.src, p.payload);
    let c2 = deliver(c, i);
    let outs = outputs(x, p.src, p.payload);
    let n0 = c.in_flight.len();
    assert(x.wf() && x.id == p.dest);
    lemma_step_grows(x, p.src, p.payload);
    assert(carried(p.payload).subset_of(store_of(c, p.src)));
    assert forall|u: Seq<char>| #[trigger] c.nodes.contains_key(u) implies c.nodes[u].store.subset_of(
        c2.nodes[u].store,
    ) && store_of(c, u).subset_of(store_of(c2, u)) by {}
    assert forall|u: Seq<char>| #![auto] !c.nodes.contains_key(u) implies store_of(c2, u)
        == store_of(c, u) && !c2.nodes.contains_key(u) by {}
    assert forall|u: Seq<char>| #[trigger]
        c2.nodes.contains_key(u) implies c2.nodes[u].wf() && c2.nodes[u].id == u by {}
    assert forall|u: Seq<char>, v: Seq<char>|
        c2.nodes.contains_key(u) && c2.nodes.contains_key(v) && #[trigger] c2.nodes[u].is_neighbor(
            v,
        ) implies (#[trigger] c2.nodes[u].ack_of(v)).subset_of(c2.nodes[v].store) by {
        assert(c.nodes[v].store.subset_of(c2.nodes[v].store));
        if u == p.dest {
            lemma_step_ack_of(x, p.src, p.payload, v);
            if x.is_neighbor(v) {
                assert(x.ack_of(v).subset_of(c.nodes[v].store));
            }
            if v == p.src {
                assert(store_of(c, p.src) == c.nodes[v].store);
            }
        } else {
            assert(c.nodes[u].is_neighbor(v));
            assert(c.nodes[u].ack_of(v).subset_of(c.nodes[v].store));
        }
    }
    assert forall|k: int| 0 <= k < c2.in_flight.len() implies carried(
        (#[trigger] c2.in_flight[k]).payload,
    ).subset_of(store_of(c2, c2.in_flight[k].src)) by {
        if k < n0 {
            assert(c2.in_flight[k] == c.in_flight[k]);
            let s = c.in_flight[k].src;
            assert(carried(c.in_flight[k].payload).subset_of(store_of(c, s)));
            if c.nodes.contains_key(s) {
                assert(store_of(c, s).subset_of(store_of(c2, s)));
            }
        } else {
            let j = k - n0;
            lemma_output_shape(x, p.src, p.payload, j);
            assert(c2.in_flight[k] == packet_of(p.dest, p.src, x2.store, outs[j]));
            assert(store_of(c2, p.dest) == x2.store);
        }
    }
    assert forall|k: int|
        0 <= k < c2.in_flight.len() && c2.nodes.contains_key(
            (#[trigger] c2.in_flight[k]).dest,
        ) implies c2.in_flight[k].covers.subset_of(
        carried(c2.in_flight[k].payload) + c2.nodes[c2.in_flight[k].dest].store,
    ) by {
        if k < n0 {
            assert(c2.in_flight[k] == c.in_flight[k]);
            let d = c.in_flight[k].dest;
            assert(c.nodes.contains_key(d));
            assert(c.in_flight[k].covers.subset_of(
                carried(c.in_flight[k].payload) + c.nodes[d].store,
            ));
            assert(c.nodes[d].store.subset_of(c2.nodes[d].store));
        } else {
            let j = k - n0;
            lemma_output_shape(x, p.src, p.payload, j);
            assert(c2.in_flight[k] == packet_of(p.dest, p.src, x2.store, outs[j]));
            if let ActionModel::Send { dest, payload } = outs[j] {
                assert(c2.nodes[p.dest] == x2);
                assert(c2.nodes[p.dest].is_neighbor(dest));
                assert(x2.ack_of(dest).subset_of(c2.nodes[dest].store));
            }
        }
    }
}

/// Losing a packet keeps the invariant.
pub proof fn lemma_drop_keeps_inv(c: ClusterModel, i: int)
    requires
        inv(c),
        0 <= i < c.in_flight.len(),
    ensures
        inv(drop_packet(c, i)),
{
    let c2 = drop_packet(c, i);
    assert forall|k: int| 0 <= k < c2.in_flight.len() implies #[trigger] c2.in_flight[k] == c.in_flight[
        if k < i {
            k
        } else {
            k + 1
        }
    ] by {}
    assert forall|k: int| 0 <= k < c2.in_flight.len() implies carried(
        (#[trigger] c2.in_flight[k]).payload,
    ).subset_of(store_of(c2, c2.in_flight[k].src)) by {
        let k0 = if k < i { k } else { k + 1 };
        assert(c2.in_flight[k] == c.in_flight[k0]);
    }
    assert forall|k: int|
        0 <= k < c2.in_flight.len() && c2.nodes.contains_key(
            (#[trigger] c2.in_flight[k]).dest,
        ) implies c2.in_flight[k].covers.subset_of(
        carried(c2.in_flight[k].payload) + c2.nodes[c2.in_flight[k].dest].store,
    ) by {
        let k0 = if k < i { k } else { k + 1 };
        assert(c2.in_flight[k] == c.in_flight[k0]);
    }
}

/// A client's broadcast, read or topology request entering the network keeps
/// the invariant.
pub proof fn lemma_inject_keeps_inv(c: ClusterModel, p: Packet)
    requires
        inv(c),
        is_request(p.payload),
        p.covers == Set::<u32>::empty(),
    ensures
        inv(inject(c, p)),
{
    let c2 = inject(c, p);
    assert forall|k: int| 0 <= k < c2.in_flight.len() implies carried(
        (#[trigger] c2.in_flight[k]).payload,
    ).subset_of(store_of(c2, c2.in_flight[k].src)) by {
        if k < c.in_flight.len() {
            assert(c2.in_flight[k] == c.in_flight[k]);
        }
    }
    assert forall|k: int|
        0 <= k < c2.in_flight.len() && c2.nodes.contains_key(
            (#[trigger] c2.in_flight[k]).dest,
        ) implies c2.in_flight[k].covers.subset_of(
        carried(c2.in_flight[k].payload) + c2.nodes[c2.in_flight[k].dest].store,
    ) by {
        if k < c.in_flight.len() {
            assert(c2.in_flight[k] == c.in_flight[k]);
        }
    }
}

/// One event of the network: a packet delivered (and kept, so that it may
/// come again), a packet lost, or a client's request sent.
pub enum NetEvent {
    Deliver(int),
    Drop(int),
    Inject(Packet),
}

/// The cluster after `e`; an event that cannot happen changes nothing.
pub open spec fn net_step(c: ClusterModel, e: NetEvent) -> ClusterModel {
    match e {
        NetEvent::Deliver(i) => if 0 <= i < c.in_flight.len() && c.nodes.contains_key(
            c.in_flight[i].dest,
        ) {
            deliver(c, i)
        } else {
            c
        },
        NetEvent::Drop(i) => if 0 <= i < c.in_flight.len() {
            drop_packet(c, i)
        } else {
            c
        },
        NetEvent::Inject(p) => if is_request(p.payload) && p.covers == Set::<u32>::empty() {
            inject(c, p)
        } else {
            c
        },
    }
}

/// The cluster after each event of `events` in turn.
pub open spec fn net_run(c: ClusterModel, events: Seq<NetEvent>) -> ClusterModel
    decreases events.len(),
{
    if events.len() == 0 {
        c
    } else {
        net_step(net_run(c, events.drop_last()), events.last())
    }
}

/// A cluster of fresh nodes, each under its own name, with nothing in flight.
pub open spec fn fresh(c: ClusterModel) -> bool {
    &&& c.in_flight.len() == 0
    &&& forall|x: Seq<char>| #[trigger]
        c.nodes.contains_key(x) ==> c.nodes[x].id == x && c.nodes[x].store == Set::<u32>::empty()
            && c.nodes[x].names.len() == 0 && c.nodes[x].acks.len() == 0
}

/// Under any schedule of delivery, duplication, loss and reordering, started
/// from fresh nodes, what a node records a neighbor as holding that neighbor
/// holds, and every packet carries only what its sender holds.
pub proof fn lemma_net_run_keeps_inv(c: ClusterModel, events: Seq<NetEvent>)
    requires
        fresh(c),
    ensures
        inv(net_run(c, events)),
    decreases events.len(),
{
    if events.len() == 0 {
        assert forall|x: Seq<char>| #[trigger]
            c.nodes.contains_key(x) implies c.nodes[x].wf() && c.nodes[x].id == x by {
            assert(c.nodes[x].names.no_duplicates());
        }
    } else {
        let prev = net_run(c, events.drop_last());
        lemma_net_run_keeps_inv(c, events.drop_last());
        match events.last() {
            NetEvent::Deliver(i) => {
                if 0 <= i < prev.in_flight.len() && prev.nodes.contains_key(prev.in_flight[i].dest) {
                    lemma_deliver_keeps_inv(prev, i);
                }
            },
            NetEvent::Drop(i) => {
                if 0 <= i < prev.in_flight.len() {
                    lemma_drop_keeps_inv(prev, i);
                }
            },
            NetEvent::Inject(p) => {
                if is_request(p.payload) && p.covers == Set::<u32>::empty() {
                    lemma_inject_keeps_inv(prev, p);
                }
            },
        }
    }
}

/// Delivering a gossip message to a node that has its sender as a neighbor
/// brings that node's store up to what the sender held when it sent, under
/// any schedule that led there from fresh nodes.
pub proof fn lemma_gossip_delivery_covers(c: ClusterModel, events: Seq<NetEvent>, i: int)
    requires
        fresh(c),
        0 <= i < net_run(c, events).in_flight.len(),
        net_run(c, events).in_flight[i].payload is Gossip,
        net_run(c, events).nodes.contains_key(net_run(c, events).in_flight[i].dest),
        net_run(c, events).nodes[net_run(c, events).in_flight[i].dest].is_neighbor(
            net_run(c, events).in_flight[i].src,
        ),
    ensures
        ({
            let now = net_run(c, events);
            let p = now.in_flight[i];
            p.covers.subset_of(deliver(now, i).nodes[p.dest].store)
        }),
{
    let now = net_run(c, events);
    lemma_net_run_keeps_inv(c, events);
    let p = now.in_flight[i];
    assert(p.covers.subset_of(carried(p.payload) + now.nodes[p.dest].store));
}

} // verus!
