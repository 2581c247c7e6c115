//! What holds of a node over any sequence of inbound messages.
use vstd::prelude::*;
use crate::node::{
    assigned_neighbors, gossip_reply, gossip_round, lemma_add_neighbors, lemma_position,
    next_state, outputs, round_over, with_offer, ActionModel, NodeModel, PayloadModel,
};

verus! {

/// The state after handling each `(src, payload)` of `events` in turn.
pub open spec fn run(m: NodeModel, events: Seq<(Seq<char>, PayloadModel)>) -> NodeModel
    decreases events.len(),
{
    if events.len() == 0 {
        m
    } else {
        next_state(run(m, events.drop_last()), events.last().0, events.last().1)
    }
}

/// `b` keeps every value and neighbor of `a`, at the same place, and every
/// acknowledgment of `a`.
pub open spec fn grows(a: NodeModel, b: NodeModel) -> bool {
    &&& a.id == b.id
    &&& a.store.subset_of(b.store)
    &&& a.names.len() <= b.names.len()
    &&& b.names.take(a.names.len() as int) == a.names
    &&& forall|i: int| 0 <= i < a.names.len() ==> (#[trigger] a.acks[i]).subset_of(b.acks[i])
}

/// Whether handling `p` from `src` in state `m` takes in the value `v`
/// alone: a broadcast of it, or gossip carrying just it from a neighbor.
pub open spec fn takes_in(m: NodeModel, src: Seq<char>, p: PayloadModel, v: u32) -> bool {
    match p {
        PayloadModel::Broadcast { message } => message == v,
        PayloadModel::Gossip { seen } => seen == set![v] && m.is_neighbor(src),
        PayloadModel::GossipOk { seen } => seen == set![v] && m.is_neighbor(src),
        _ => false,
    }
}

/// Whether `a` is a gossip message.
pub open spec fn is_gossip(a: ActionModel) -> bool {
    match a {
        ActionModel::Send { payload: PayloadModel::Gossip { .. }, .. } => true,
        _ => false,
    }
}

/// Whether `p` leaves node `id` without new neighbors: it is no topology,
/// or one that assigns `id` none.
pub open spec fn assigns_no_neighbor(id: Seq<char>, p: PayloadModel) -> bool {
    match p {
        PayloadModel::Topology { topology } => assigned_neighbors(topology, id).len() == 0,
        _ => true,
    }
}

proof fn lemma_take_in_store(m: NodeModel, src: Seq<char>, p: PayloadModel, v: u32)
    requires
        takes_in(m, src, p, v),
    ensures
        next_state(m, src, p).store == m.store.insert(v),
        next_state(m, src, p).names == m.names,
{
    assert(m.store + set![v] =~= m.store.insert(v));
}

/// Taking in a value twice, by any mix of broadcast and gossip, leaves the
/// store as taking it in once does.
pub proof fn lemma_insert_idempotent(
    m: NodeModel,
    v: u32,
    src1: Seq<char>,
    p1: PayloadModel,
    src2: Seq<char>,
    p2: PayloadModel,
)
    requires
        takes_in(m, src1, p1, v),
        takes_in(m, src2, p2, v),
    ensures
        next_state(next_state(m, src1, p1), src2, p2).store == next_state(m, src1, p1).store,
        next_state(next_state(m, src1, p1), src2, p2).store == next_state(m, src2, p2).store,
{
    let once = next_state(m, src1, p1);
    lemma_take_in_store(m, src1, p1, v);
    lemma_take_in_store(m, src2, p2, v);
    assert(takes_in(once, src2, p2, v));
    lemma_take_in_store(once, src2, p2, v);
    assert(once.store.insert(v) =~= once.store);
}

/// One inbound message keeps the state well formed and lets it only grow.
pub proof fn lemma_step_grows(m: NodeModel, src: Seq<char>, p: PayloadModel)
    requires
        m.wf(),
    ensures
        next_state(m, src, p).wf(),
        grows(m, next_state(m, src, p)),
{
    let n = next_state(m, src, p);
    match p {
        PayloadModel::Topology { topology } => {
            lemma_add_neighbors(m.names, assigned_neighbors(topology, m.id));
        },
        _ => {
            assert(n.names.take(m.names.len() as int) =~= m.names);
        },
    }
}

/// Over any sequence of messages the state stays well formed and only grows.
pub proof fn lemma_run_grows(m: NodeModel, events: Seq<(Seq<char>, PayloadModel)>)
    requires
        m.wf(),
    ensures
        run(m, events).wf(),
        grows(m, run(m, events)),
    decreases events.len(),
{
    if events.len() == 0 {
        assert(m.names.take(m.names.len() as int) =~= m.names);
        assert(grows(m, m));
        assert(run(m, events) == m);
    } else {
        let prev = run(m, events.drop_last());
        lemma_run_grows(m, events.drop_last());
        lemma_step_grows(prev, events.last().0, events.last().1);
        let n = run(m, events);
        assert forall|i: int| 0 <= i < m.names.len() implies (#[trigger] m.acks[i]).subset_of(
            n.acks[i],
        ) by {
            assert(m.acks[i].subset_of(prev.acks[i]));
            assert(prev.acks[i].subset_of(n.acks[i]));
        }
        assert(n.names.take(m.names.len() as int) =~= n.names.take(
            prev.names.len() as int,
        ).take(m.names.len() as int));
        assert(m.store.subset_of(n.store));
        assert(m.names.len() <= n.names.len());
        assert(m.id == n.id);
        assert(grows(m, n));
    }
}

/// Over any sequence of messages, each neighbor stays a neighbor and its
/// acknowledgment set only grows; the store only grows too.
pub proof fn lemma_acks_monotone(m: NodeModel, events: Seq<(Seq<char>, PayloadModel)>, n: Seq<char>)
    requires
        m.wf(),
        m.is_neighbor(n),
    ensures
        run(m, events).is_neighbor(n),
        m.ack_of(n).subset_of(run(m, events).ack_of(n)),
        m.store.subset_of(run(m, events).store),
{
    let after = run(m, events);
    lemma_run_grows(m, events);
    let i = choose|i: int| 0 <= i < m.names.len() && m.names[i] == n;
    lemma_position(m, i);
    assert(after.names.take(m.names.len() as int)[i] == n);
    lemma_position(after, i);
    assert(m.acks[i].subset_of(after.acks[i]));
}

/// Each message of a round goes to a name of `names` and carries what that
/// neighbor is not known to hold.
pub proof fn lemma_round_shape(m: NodeModel, names: Seq<Seq<char>>, k: int)
    requires
        0 <= k < round_over(m, names).len(),
    ensures
        round_over(m, names)[k] matches ActionModel::Send { dest, payload } && names.contains(dest)
            && payload == (PayloadModel::Gossip { seen: m.unseen(dest) }),
    decreases names.len(),
{
    let prev = round_over(m, names.drop_last());
    if k < prev.len() {
        lemma_round_shape(m, names.drop_last(), k);
        if let ActionModel::Send { dest, .. } = prev[k] {
            let j = choose|j: int| 0 <= j < names.len() - 1 && names.drop_last()[j] == dest;
            assert(names[j] == dest);
        }
    } else {
        assert(names[names.len() - 1] == names.last());
    }
}

/// Once neighbor `n` has sent `v`, in gossip or in a confirmation, no later
/// round of gossip offers `v` to `n` again, whatever comes in between.
pub proof fn lemma_confirmed_not_resent(
    m: NodeModel,
    n: Seq<char>,
    seen: Set<u32>,
    v: u32,
    events: Seq<(Seq<char>, PayloadModel)>,
)
    requires
        m.wf(),
        m.is_neighbor(n),
        seen.contains(v),
    ensures
        ({
            let after = run(with_offer(m, n, seen), events);
            &&& after.is_neighbor(n)
            &&& !after.unseen(n).contains(v)
            &&& forall|k: int|
                0 <= k < gossip_round(after).len() ==> (#[trigger] gossip_round(after)[k] matches
                ActionModel::Send { dest, payload: PayloadModel::Gossip { seen: sent } } && (dest
                == n ==> !sent.contains(v)))
        }),
{
    let m1 = with_offer(m, n, seen);
    lemma_step_grows(m, n, PayloadModel::GossipOk { seen });
    let i = choose|i: int| 0 <= i < m.names.len() && m.names[i] == n;
    lemma_position(m, i);
    assert(m1.names =~= m.names);
    lemma_position(m1, i);
    assert(m1.ack_of(n).contains(v));
    lemma_acks_monotone(m1, events, n);
    let after = run(m1, events);
    assert forall|k: int| 0 <= k < gossip_round(after).len() implies (#[trigger] gossip_round(
        after,
    )[k] matches ActionModel::Send { dest, payload: PayloadModel::Gossip { seen: sent } } && (dest
        == n ==> !sent.contains(v))) by {
        lemma_round_shape(after, after.names, k);
    }
}

/// A node with no neighbor, given no topology that assigns it one, sends no
/// gossip and keeps no neighbor; it still answers a broadcast with a bare
/// acknowledgment and a read with its whole store.
pub proof fn lemma_isolated_step(m: NodeModel, src: Seq<char>, p: PayloadModel)
    requires
        m.wf(),
        m.names.len() == 0,
        assigns_no_neighbor(m.id, p),
    ensures
        next_state(m, src, p).names.len() == 0,
        next_state(m, src, p).id == m.id,
        forall|k: int|
            0 <= k < outputs(m, src, p).len() ==> !is_gossip(#[trigger] outputs(m, src, p)[k]),
        p is Broadcast ==> outputs(m, src, p) == seq![ActionModel::Reply(PayloadModel::BroadcastOk)],
        p is Read ==> outputs(m, src, p) == seq![
            ActionModel::Reply(PayloadModel::ReadOk { messages: m.store }),
        ],
{
    let n = next_state(m, src, p);
    assert(n.names.len() == 0) by {
        if let PayloadModel::Topology { topology } = p {
            assert(assigned_neighbors(topology, m.id) =~= Seq::<Seq<char>>::empty());
        }
    }
    assert(gossip_round(n) =~= Seq::<ActionModel>::empty());
    assert(gossip_round(m) =~= Seq::<ActionModel>::empty());
    if p is Broadcast {
        assert(outputs(m, src, p) =~= seq![ActionModel::Reply(PayloadModel::BroadcastOk)]);
    }
    if p is Read {
        assert(outputs(m, src, p) =~= seq![
            ActionModel::Reply(PayloadModel::ReadOk { messages: m.store }),
        ]);
    }
}

/// A node that starts with no neighbor and is given no topology that assigns
/// it one never sends gossip, whatever sequence of messages it handles.
pub proof fn lemma_isolated_run(m: NodeModel, events: Seq<(Seq<char>, PayloadModel)>, k: int)
    requires
        m.wf(),
        m.names.len() == 0,
        forall|j: int| 0 <= j < events.len() ==> assigns_no_neighbor(m.id, #[trigger] events[j].1),
        0 <= k < events.len(),
    ensures
        ({
            let before = run(m, events.take(k));
            forall|a: int|
                0 <= a < outputs(before, events[k].0, events[k].1).len() ==> !is_gossip(
                    #[trigger] outputs(before, events[k].0, events[k].1)[a],
                )
        }),
{
    lemma_isolated_prefix(m, events, k);
    lemma_run_grows(m, events.take(k));
    lemma_isolated_step(run(m, events.take(k)), events[k].0, events[k].1);
}

proof fn lemma_isolated_prefix(m: NodeModel, events: Seq<(Seq<char>, PayloadModel)>, k: int)
    requires
        m.wf(),
        m.names.len() == 0,
        forall|j: int| 0 <= j < events.len() ==> assigns_no_neighbor(m.id, #[trigger] events[j].1),
        0 <= k <= events.len(),
    ensures
        run(m, events.take(k)).names.len() == 0,
        run(m, events.take(k)).id == m.id,
    decreases k,
{
    if k > 0 {
        lemma_isolated_prefix(m, events, k - 1);
        assert(events.take(k).drop_last() =~= events.take(k - 1));
        let prev = run(m, events.take(k - 1));
        lemma_run_grows(m, events.take(k - 1));
        assert(events.take(k).last() == events[k - 1]);
        lemma_isolated_step(prev, events[k - 1].0, events[k - 1].1);
    }
}

/// One hop of dissemination: when node `b` takes in the gossip that node `a`
/// addressed to it in a round, and all that `a` records `b` as holding is in
/// `b`'s store, and `b` has `a` as a neighbor, `b`'s store then holds all of
/// `a`'s.
pub proof fn lemma_gossip_hop(a: NodeModel, b: NodeModel, k: int)
    requires
        0 <= k < gossip_round(a).len(),
        gossip_round(a)[k] matches ActionModel::Send { dest, .. } && dest == b.id,
        a.ack_of(b.id).subset_of(b.store),
        b.is_neighbor(a.id),
    ensures
        gossip_round(a)[k] matches ActionModel::Send { payload, .. } && a.store.subset_of(
            next_state(b, a.id, payload).store,
        ),
{
    lemma_round_shape(a, a.names, k);
}

/// Every value acknowledged for a neighbor is in the node's own store.
pub open spec fn acks_in_store(m: NodeModel) -> bool {
    forall|i: int| 0 <= i < m.acks.len() ==> (#[trigger] m.acks[i]).subset_of(m.store)
}

/// Over any sequence of messages, values acknowledged for a neighbor stay
/// within the node's own store.
pub proof fn lemma_acks_stay_in_store(m: NodeModel, events: Seq<(Seq<char>, PayloadModel)>)
    requires
        m.wf(),
        acks_in_store(m),
    ensures
        acks_in_store(run(m, events)),
    decreases events.len(),
{
    if events.len() > 0 {
        let prev = run(m, events.drop_last());
        lemma_acks_stay_in_store(m, events.drop_last());
        lemma_run_grows(m, events.drop_last());
        let n = run(m, events);
        assert forall|i: int| 0 <= i < n.acks.len() implies (#[trigger] n.acks[i]).subset_of(
            n.store,
        ) by {
            if i < prev.acks.len() {
                assert(prev.acks[i].subset_of(prev.store));
            }
        }
    }
}

/// One gossip round trip: when node `b` takes in the gossip that node `a`
/// addressed to it, and `a` then takes in `b`'s answer, `a` records `b` as
/// holding every value that `a` held when it sent.
pub proof fn lemma_round_trip(a: NodeModel, b: NodeModel, k: int)
    requires
        a.wf(),
        0 <= k < gossip_round(a).len(),
        gossip_round(a)[k] matches ActionModel::Send { dest, .. } && dest == b.id,
        b.is_neighbor(a.id),
    ensures
        gossip_round(a)[k] matches ActionModel::Send { payload: PayloadModel::Gossip { seen }, .. }
            && a.store.subset_of(
            next_state(
                a,
                b.id,
                PayloadModel::GossipOk { seen: gossip_reply(b, a.id, seen) },
            ).ack_of(b.id),
        ),
{
    lemma_round_shape(a, a.names, k);
    let seen = a.unseen(b.id);
    let reply = gossip_reply(b, a.id, seen);
    assert(seen.subset_of(reply));
    let i = choose|i: int| 0 <= i < a.names.len() && a.names[i] == b.id;
    lemma_position(a, i);
    let a2 = with_offer(a, b.id, reply);
    assert(a2.names == a.names);
    lemma_position(a2, i);
}

} // verus!
