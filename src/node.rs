//! The per-node state of the broadcast protocol: the message store, the
//! neighbor table with one acknowledgment set per neighbor, and the
//! transitions taken on each inbound message.
use vstd::prelude::*;
use crate::value_set::{add_value, add_values, lemma_empty_to_set, values_found_in, values_missing_from};

verus! {

/// A message body, dispatched on its kind.
#[derive(Debug, PartialEq, Eq)]
pub enum Payload {
    Broadcast { message: u32 },
    BroadcastOk,
    Gossip { seen: Vec<u32> },
    GossipOk { seen: Vec<u32> },
    Read,
    ReadOk { messages: Vec<u32> },
    Topology { topology: Vec<(String, Vec<String>)> },
    TopologyOk,
}

/// What a message body means: collections of values are read as sets.
pub enum PayloadModel {
    Broadcast { message: u32 },
    BroadcastOk,
    Gossip { seen: Set<u32> },
    GossipOk { seen: Set<u32> },
    Read,
    ReadOk { messages: Set<u32> },
    Topology { topology: Seq<(Seq<char>, Seq<Seq<char>>)> },
    TopologyOk,
}

/// A list of node names, as character sequences.
pub open spec fn names_view(v: Seq<String>) -> Seq<Seq<char>> {
    v.map_values(|s: String| s@)
}

/// A topology: each node name with its list of neighbor names.
pub open spec fn topology_view(t: Seq<(String, Vec<String>)>) -> Seq<(Seq<char>, Seq<Seq<char>>)> {
    t.map_values(|e: (String, Vec<String>)| (e.0@, names_view(e.1@)))
}

impl View for Payload {
    type V = PayloadModel;

    open spec fn view(&self) -> PayloadModel {
        match self {
            Payload::Broadcast { message } => PayloadModel::Broadcast { message: *message },
            Payload::BroadcastOk => PayloadModel::BroadcastOk,
            Payload::Gossip { seen } => PayloadModel::Gossip { seen: seen@.to_set() },
            Payload::GossipOk { seen } => PayloadModel::GossipOk { seen: seen@.to_set() },
            Payload::Read => PayloadModel::Read,
            Payload::ReadOk { messages } => PayloadModel::ReadOk { messages: messages@.to_set() },
            Payload::Topology { topology } => PayloadModel::Topology {
                topology: topology_view(topology@),
            },
            Payload::TopologyOk => PayloadModel::TopologyOk,
        }
    }
}

impl Payload {
    /// Every list of values that the body carries is free of repeats.
    pub open spec fn lists_distinct(&self) -> bool {
        match self {
            Payload::Gossip { seen } => seen@.no_duplicates(),
            Payload::GossipOk { seen } => seen@.no_duplicates(),
            Payload::ReadOk { messages } => messages@.no_duplicates(),
            _ => true,
        }
    }
}

/// An outbound message: a reply to the sender of the message being handled,
/// or a message addressed to a neighbor.
#[derive(Debug, PartialEq, Eq)]
pub enum Action {
    Reply(Payload),
    Send { dest: String, payload: Payload },
}

/// What an outbound message means.
pub enum ActionModel {
    Reply(PayloadModel),
    Send { dest: Seq<char>, payload: PayloadModel },
}

impl View for Action {
    type V = ActionModel;

    open spec fn view(&self) -> ActionModel {
        match self {
            Action::Reply(p) => ActionModel::Reply(p@),
            Action::Send { dest, payload } => ActionModel::Send { dest: dest@, payload: payload@ },
        }
    }
}

impl Action {
    /// Every list of values that the message carries is free of repeats.
    pub open spec fn lists_distinct(&self) -> bool {
        match self {
            Action::Reply(p) => p.lists_distinct(),
            Action::Send { payload, .. } => payload.lists_distinct(),
        }
    }
}

/// A list of outbound messages, each read by its meaning.
pub open spec fn actions_view(a: Seq<Action>) -> Seq<ActionModel> {
    a.map_values(|x: Action| x@)
}

/// The abstract state of a node. `names[i]` is a neighbor and `acks[i]` the
/// values known to be held by it.
pub struct NodeModel {
    pub id: Seq<char>,
    pub store: Set<u32>,
    pub names: Seq<Seq<char>>,
    pub acks: Seq<Set<u32>>,
    pub skip_empty_gossip: bool,
}

impl NodeModel {
    /// One acknowledgment set per neighbor, and no neighbor twice.
    pub open spec fn wf(self) -> bool {
        &&& self.names.len() == self.acks.len()
        &&& self.names.no_duplicates()
    }

    pub open spec fn is_neighbor(self, n: Seq<char>) -> bool {
        self.names.contains(n)
    }

    /// The place of neighbor `n` in the table.
    pub open spec fn position(self, n: Seq<char>) -> int {
        choose|i: int| 0 <= i < self.names.len() && self.names[i] == n
    }

    /// The values known to be held by neighbor `n`.
    pub open spec fn ack_of(self, n: Seq<char>) -> Set<u32> {
        self.acks[self.position(n)]
    }

    /// The values that neighbor `n` is not known to hold.
    pub open spec fn unseen(self, n: Seq<char>) -> Set<u32> {
        self.store - self.ack_of(n)
    }
}

/// The neighbor list that topology `t` assigns to `id`: the list of the
/// first entry keyed by `id`, or none.
pub open spec fn assigned_neighbors(t: Seq<(Seq<char>, Seq<Seq<char>>)>, id: Seq<char>) -> Seq<
    Seq<char>,
>
    decreases t.len(),
{
    if t.len() == 0 {
        Seq::empty()
    } else if t[0].0 == id {
        t[0].1
    } else {
        assigned_neighbors(t.drop_first(), id)
    }
}

/// `names` extended, in order, by each name of `list` that it lacks.
pub open spec fn add_neighbors(names: Seq<Seq<char>>, list: Seq<Seq<char>>) -> Seq<Seq<char>>
    decreases list.len(),
{
    if list.len() == 0 {
        names
    } else {
        let prev = add_neighbors(names, list.drop_last());
        if prev.contains(list.last()) {
            prev
        } else {
            prev.push(list.last())
        }
    }
}

/// The state after topology `t`: each newly assigned neighbor enters the
/// table with no acknowledged value; existing entries are kept as they are.
pub open spec fn with_topology(m: NodeModel, t: Seq<(Seq<char>, Seq<Seq<char>>)>) -> NodeModel {
    let names = add_neighbors(m.names, assigned_neighbors(t, m.id));
    NodeModel {
        names,
        acks: Seq::new(
            names.len(),
            |i: int|
                if i < m.acks.len() {
                    m.acks[i]
                } else {
                    Set::empty()
                },
        ),
        ..m
    }
}

/// The state after values `seen` come from `src`: a known neighbor's values
/// join the store and that neighbor's acknowledgment set; an unknown
/// sender changes nothing.
pub open spec fn with_offer(m: NodeModel, src: Seq<char>, seen: Set<u32>) -> NodeModel {
    if m.is_neighbor(src) {
        let i = m.position(src);
        NodeModel { store: m.store + seen, acks: m.acks.update(i, m.acks[i] + seen), ..m }
    } else {
        m
    }
}

/// The state after handling `p` from `src`.
pub open spec fn next_state(m: NodeModel, src: Seq<char>, p: PayloadModel) -> NodeModel {
    match p {
        PayloadModel::Broadcast { message } => NodeModel { store: m.store.insert(message), ..m },
        PayloadModel::Gossip { seen } => with_offer(m, src, seen),
        PayloadModel::GossipOk { seen } => with_offer(m, src, seen),
        PayloadModel::Topology { topology } => with_topology(m, topology),
        _ => m,
    }
}

/// The gossip messages of one round over `names`, in their order: each
/// carries what that neighbor is not known to hold. Under the skipping
/// policy a neighbor with nothing outstanding gets none.
pub open spec fn round_over(m: NodeModel, names: Seq<Seq<char>>) -> Seq<ActionModel>
    decreases names.len(),
{
    if names.len() == 0 {
        Seq::empty()
    } else {
        let prev = round_over(m, names.drop_last());
        let n = names.last();
        if m.skip_empty_gossip && m.unseen(n) == Set::<u32>::empty() {
            prev
        } else {
            prev.push(
                ActionModel::Send { dest: n, payload: PayloadModel::Gossip { seen: m.unseen(n) } },
            )
        }
    }
}

/// The gossip messages of one round over the whole neighbor table.
pub open spec fn gossip_round(m: NodeModel) -> Seq<ActionModel> {
    round_over(m, m.names)
}

/// What a node answers to gossip `seen` from neighbor `src`: each value of
/// its store, once the gossip is taken in, that `src` is known to hold or
/// that the gossip carried.
pub open spec fn gossip_reply(m: NodeModel, src: Seq<char>, seen: Set<u32>) -> Set<u32> {
    let after = with_offer(m, src, seen);
    after.store.intersect(after.ack_of(src) + seen)
}

/// The messages a node sends on handling `p` from `src`.
pub open spec fn outputs(m: NodeModel, src: Seq<char>, p: PayloadModel) -> Seq<ActionModel> {
    match p {
        PayloadModel::Broadcast { message } => seq![ActionModel::Reply(PayloadModel::BroadcastOk)]
            + gossip_round(next_state(m, src, p)),
        PayloadModel::Read => gossip_round(m).push(
            ActionModel::Reply(PayloadModel::ReadOk { messages: m.store }),
        ),
        PayloadModel::Gossip { seen } => if m.is_neighbor(src) {
            seq![ActionModel::Reply(PayloadModel::GossipOk { seen: gossip_reply(m, src, seen) })]
        } else {
            Seq::empty()
        },
        PayloadModel::Topology { .. } => seq![ActionModel::Reply(PayloadModel::TopologyOk)],
        _ => Seq::empty(),
    }
}

/// With no repeated name, the neighbor at place `i` is found at place `i`.
pub proof fn lemma_position(m: NodeModel, i: int)
    requires
        m.wf(),
        0 <= i < m.names.len(),
    ensures
        m.position(m.names[i]) == i,
        m.ack_of(m.names[i]) == m.acks[i],
{
    let p = m.position(m.names[i]);
    assert(0 <= p < m.names.len() && m.names[p] == m.names[i]);
}

/// Adding neighbors keeps the old list as a prefix, adds no repeat, and
/// yields exactly the names of both lists.
pub proof fn lemma_add_neighbors(names: Seq<Seq<char>>, list: Seq<Seq<char>>)
    ensures
        add_neighbors(names, list).len() >= names.len(),
        add_neighbors(names, list).take(names.len() as int) == names,
        names.no_duplicates() ==> add_neighbors(names, list).no_duplicates(),
        forall|n: Seq<char>| #[trigger]
            add_neighbors(names, list).contains(n) <==> names.contains(n) || list.contains(n),
    decreases list.len(),
{
    if list.len() > 0 {
        let prev = add_neighbors(names, list.drop_last());
        lemma_add_neighbors(names, list.drop_last());
        assert forall|n: Seq<char>| #[trigger]
            add_neighbors(names, list).contains(n) <==> names.contains(n) || list.contains(n) by {
            if list.contains(n) && !list.drop_last().contains(n) {
                let k = choose|k: int| 0 <= k < list.len() && list[k] == n;
                if k < list.len() - 1 {
                    assert(list.drop_last()[k] == n);
                }
                if !prev.contains(list.last()) {
                    assert(prev.push(list.last())[prev.len() as int] == n);
                }
            }
            if list.drop_last().contains(n) {
                let k = choose|k: int| 0 <= k < list.len() - 1 && list.drop_last()[k] == n;
                assert(list[k] == n);
            }
            if !prev.contains(list.last()) {
                if prev.contains(n) {
                    let k = choose|k: int| 0 <= k < prev.len() && prev[k] == n;
                    assert(prev.push(list.last())[k] == n);
                }
                if prev.push(list.last()).contains(n) && n != list.last() {
                    let k = choose|k: int| 0 <= k < prev.len() + 1 && prev.push(list.last())[k] == n;
                    assert(prev[k] == n);
                }
            }
        }
        if !prev.contains(list.last()) {
            assert(prev.push(list.last()).take(names.len() as int) =~= prev.take(names.len() as int));
        }
    }
}

/// A list of value vectors, each read as a set.
pub open spec fn sets_view(v: Seq<Vec<u32>>) -> Seq<Set<u32>> {
    v.map_values(|a: Vec<u32>| a@.to_set())
}

/// The place of the first entry of `topology` keyed by `id`.
fn find_entry(topology: &Vec<(String, Vec<String>)>, id: &String) -> (r: Option<usize>)
    ensures
        match r {
            Some(k) => k < topology.len() && names_view(topology@[k as int].1@) == assigned_neighbors(
                topology_view(topology@),
                id@,
            ),
            None => assigned_neighbors(topology_view(topology@), id@) == Seq::<Seq<char>>::empty(),
        },
{
    let ghost t = topology_view(topology@);
    assert(t.skip(0) =~= t);
    let mut j: usize = 0;
    while j < topology.len()
        invariant
            j <= topology.len(),
            t == topology_view(topology@),
            assigned_neighbors(t, id@) == assigned_neighbors(t.skip(j as int), id@),
        decreases topology.len() - j,
    {
        assert(t.skip(j as int).drop_first() =~= t.skip(j + 1));
        assert(t.skip(j as int)[0] == t[j as int]);
        if topology[j].0 == *id {
            return Some(j);
        }
        j += 1;
    }
    assert(t.skip(j as int).len() == 0);
    None
}

/// One node's state. `neighbor_names[i]` is a neighbor and `acks[i]` the
/// values known to be held by it.
pub struct BroadcastNode {
    curr_node: String,
    messages: Vec<u32>,
    neighbor_names: Vec<String>,
    acks: Vec<Vec<u32>>,
    skip_empty_gossip: bool,
}

impl View for BroadcastNode {
    type V = NodeModel;

    closed spec fn view(&self) -> NodeModel {
        NodeModel {
            id: self.curr_node@,
            store: self.messages@.to_set(),
            names: names_view(self.neighbor_names@),
            acks: sets_view(self.acks@),
            skip_empty_gossip: self.skip_empty_gossip,
        }
    }
}

impl BroadcastNode {
    /// No value twice in the store or in an acknowledgment set, no neighbor
    /// twice, and one acknowledgment set per neighbor.
    pub closed spec fn wf(&self) -> bool {
        &&& self.messages@.no_duplicates()
        &&& self.neighbor_names.len() == self.acks.len()
        &&& names_view(self.neighbor_names@).no_duplicates()
        &&& forall|i: int| 0 <= i < self.acks.len() ==> (#[trigger] self.acks@[i])@.no_duplicates()
    }

    /// A well-formed node has a well-formed abstract state, so that what
    /// holds of abstract states holds of it.
    pub proof fn lemma_wf(&self)
        requires
            self.wf(),
        ensures
            self@.wf(),
    {
    }

    /// A node named `node_id` with an empty store and no neighbors; it
    /// gossips to every neighbor on each round, even with nothing new.
    pub fn from_init(node_id: String) -> (r: Self)
        ensures
            r.wf(),
            r@.id == node_id@,
            r@.store == Set::<u32>::empty(),
            r@.names == Seq::<Seq<char>>::empty(),
            r@.acks == Seq::<Set<u32>>::empty(),
            !r@.skip_empty_gossip,
    {
        let r = BroadcastNode {
            curr_node: node_id,
            messages: Vec::new(),
            neighbor_names: Vec::new(),
            acks: Vec::new(),
            skip_empty_gossip: false,
        };
        assert(r@.store =~= Set::<u32>::empty());
        assert(r@.names =~= Seq::<Seq<char>>::empty());
        assert(r@.acks =~= Seq::<Set<u32>>::empty());
        r
    }

    /// Chooses whether a gossip round leaves out neighbors that have nothing
    /// outstanding.
    pub fn set_skip_empty_gossip(&mut self, skip: bool)
        requires
            old(self).wf(),
        ensures
            final(self).wf(),
            final(self)@ == (NodeModel { skip_empty_gossip: skip, ..old(self)@ }),
    {
        self.skip_empty_gossip = skip;
    }

    /// The place of `n` in the neighbor table, if it is a neighbor.
    fn find_neighbor(&self, n: &String) -> (r: Option<usize>)
        requires
            self.wf(),
        ensures
            match r {
                Some(i) => i < self@.names.len() && self@.names[i as int] == n@ && self@.position(n@)
                    == i,
                None => !self@.is_neighbor(n@),
            },
    {
        let mut i: usize = 0;
        while i < self.neighbor_names.len()
            invariant
                i <= self.neighbor_names.len(),
                self.wf(),
                forall|k: int| 0 <= k < i ==> self@.names[k] != n@,
            decreases self.neighbor_names.len() - i,
        {
            if self.neighbor_names[i] == *n {
                proof {
                    let p = self@.position(n@);
                    assert(self@.names[i as int] == n@);
                    assert(self@.names.no_duplicates());
                    assert(0 <= p < self@.names.len() && self@.names[p] == n@);
                }
                return Some(i);
            }
            i += 1;
        }
        None
    }

    /// Takes the topology: each neighbor that it assigns to this node and
    /// that the table lacks enters with an empty acknowledgment set.
    pub fn apply_topology(&mut self, topology: &Vec<(String, Vec<String>)>)
        requires
            old(self).wf(),
        ensures
            final(self).wf(),
            final(self)@ == with_topology(old(self)@, topology_view(topology@)),
    {
        let ghost t = topology_view(topology@);
        let ghost target = assigned_neighbors(t, self@.id);
        let empty: Vec<String> = Vec::new();
        let list: &Vec<String> = match find_entry(topology, &self.curr_node) {
            Some(k) => &topology[k].1,
            None => {
                assert(names_view(empty@) =~= target);
                &empty
            },
        };
        let ghost m0 = self@;
        let mut i: usize = 0;
        while i < list.len()
            invariant
                i <= list.len(),
                self.wf(),
                self@.id == m0.id,
                self@.store == m0.store,
                self@.skip_empty_gossip == m0.skip_empty_gossip,
                self@.names == add_neighbors(m0.names, target.take(i as int)),
                self@.names.len() >= m0.names.len(),
                self@.acks == Seq::new(
                    self@.names.len(),
                    |k: int|
                        if k < m0.acks.len() {
                            m0.acks[k]
                        } else {
                            Set::empty()
                        },
                ),
                m0.wf(),
                target == names_view(list@),
            decreases list.len() - i,
        {
            let name = &list[i];
            assert(target.take(i + 1).drop_last() =~= target.take(i as int));
            assert(target.take(i + 1).last() == name@);
            let ghost before = self@;
            match self.find_neighbor(name) {
                Some(_) => {},
                None => {
                    self.neighbor_names.push(name.clone());
                    let ghost acks_before = self.acks@;
                    self.acks.push(Vec::new());
                    proof {
                        assert(self.acks@.last()@.len() == 0);
                        assert(self.acks@.last()@.to_set() =~= Set::<u32>::empty());
                        assert(self.acks@ =~= acks_before.push(self.acks@.last()));
                        assert(sets_view(self.acks@) =~= sets_view(acks_before).push(Set::<u32>::empty()));
                        assert(self@.names =~= before.names.push(name@));
                        assert(names_view(self.neighbor_names@).no_duplicates());
                        assert(self@.acks =~= Seq::new(
                            self@.names.len(),
                            |k: int|
                                if k < m0.acks.len() {
                                    m0.acks[k]
                                } else {
                                    Set::empty()
                                },
                        ));
                    }
                },
            }
            i += 1;
        }
        assert(target.take(list.len() as int) =~= target);
    }

    /// Takes in values `seen` from `src`: for a known neighbor they join the
    /// store and that neighbor's acknowledgment set, and the answer is
    /// returned; an unknown sender is ignored.
    pub fn receive_gossip(&mut self, src: &String, seen: &Vec<u32>) -> (r: Option<Vec<u32>>)
        requires
            old(self).wf(),
        ensures
            final(self).wf(),
            final(self)@ == with_offer(old(self)@, src@, seen@.to_set()),
            match r {
                Some(v) => old(self)@.is_neighbor(src@) && v@.no_duplicates() && v@.to_set()
                    == gossip_reply(old(self)@, src@, seen@.to_set()),
                None => !old(self)@.is_neighbor(src@),
            },
    {
        match self.find_neighbor(src) {
            None => None,
            Some(j) => {
                self.take_offer(j, seen);
                let reply = values_found_in(&self.messages, &self.acks[j], seen);
                proof {
                    lemma_position(self@, j as int);
                }
                Some(reply)
            },
        }
    }

    /// Takes in values `confirmed` from `src`, as `receive_gossip` does, with
    /// no answer.
    pub fn receive_gossip_ok(&mut self, src: &String, confirmed: &Vec<u32>)
        requires
            old(self).wf(),
        ensures
            final(self).wf(),
            final(self)@ == with_offer(old(self)@, src@, confirmed@.to_set()),
    {
        match self.find_neighbor(src) {
            None => {},
            Some(j) => self.take_offer(j, confirmed),
        }
    }

    fn take_offer(&mut self, j: usize, seen: &Vec<u32>)
        requires
            old(self).wf(),
            j < old(self)@.names.len(),
            old(self)@.position(old(self)@.names[j as int]) == j,
        ensures
            final(self).wf(),
            final(self)@ == with_offer(old(self)@, old(self)@.names[j as int], seen@.to_set()),
    {
        let ghost m0 = self@;
        add_values(&mut self.messages, seen);
        let mut a: Vec<u32> = Vec::new();
        std::mem::swap(&mut a, &mut self.acks[j]);
        add_values(&mut a, seen);
        self.acks[j] = a;
        proof {
            assert(m0.is_neighbor(m0.names[j as int]));
            assert(sets_view(self.acks@) =~= m0.acks.update(j as int, m0.acks[j as int] + seen@.to_set()));
            assert forall|i: int| 0 <= i < self.acks.len() implies (#[trigger] self.acks@[i])@.no_duplicates() by {
                if i != j {
                    assert(self.acks@[i] == old(self).acks@[i]);
                }
            }
        }
    }

    /// One round of anti-entropy: for each neighbor, in table order, a gossip
    /// message with the values of the store that it is not known to hold.
    pub fn sync_with_neighbors(&self) -> (r: Vec<Action>)
        requires
            self.wf(),
        ensures
            actions_view(r@) == gossip_round(self@),
            forall|i: int| 0 <= i < r.len() ==> (#[trigger] r@[i]).lists_distinct(),
    {
        let ghost m = self@;
        let mut out: Vec<Action> = Vec::new();
        let mut i: usize = 0;
        while i < self.neighbor_names.len()
            invariant
                i <= self.neighbor_names.len(),
                self.wf(),
                m == self@,
                actions_view(out@) == round_over(m, m.names.take(i as int)),
                forall|k: int| 0 <= k < out.len() ==> (#[trigger] out@[k]).lists_distinct(),
            decreases self.neighbor_names.len() - i,
        {
            let unseen = values_missing_from(&self.messages, &self.acks[i]);
            proof {
                lemma_position(m, i as int);
                lemma_empty_to_set(unseen@);
                assert(m.names.take(i + 1).drop_last() =~= m.names.take(i as int));
                assert(m.names.take(i + 1).last() == m.names[i as int]);
            }
            if !self.skip_empty_gossip || unseen.len() > 0 {
                let ghost before = out@;
                out.push(
                    Action::Send {
                        dest: self.neighbor_names[i].clone(),
                        payload: Payload::Gossip { seen: unseen },
                    },
                );
                assert(actions_view(out@) =~= actions_view(before).push(out@.last()@));
            }
            i += 1;
        }
        assert(m.names.take(self.neighbor_names.len() as int) =~= m.names);
        out
    }

    /// The store's values, each once.
    pub fn messages(&self) -> (r: Vec<u32>)
        requires
            self.wf(),
        ensures
            r@.no_duplicates(),
            r@.to_set() == self@.store,
    {
        let r = self.messages.clone();
        assert(r@ =~= self.messages@);
        r
    }

    /// Handles one inbound message from `src` and returns what is to be sent,
    /// in order: replies go back to `src`, gossip to the named neighbor.
    pub fn step(&mut self, src: &String, payload: Payload) -> (r: Vec<Action>)
        requires
            old(self).wf(),
        ensures
            final(self).wf(),
            final(self)@ == next_state(old(self)@, src@, payload@),
            actions_view(r@) == outputs(old(self)@, src@, payload@),
            forall|i: int| 0 <= i < r.len() ==> (#[trigger] r@[i]).lists_distinct(),
    {
        match payload {
            Payload::Broadcast { message } => {
                add_value(&mut self.messages, message);
                let mut out = vec![Action::Reply(Payload::BroadcastOk)];
                let mut round = self.sync_with_neighbors();
                let ghost first = out@;
                let ghost rest = round@;
                out.append(&mut round);
                assert(out@ == first + rest);
                assert(actions_view(out@) =~= actions_view(first) + actions_view(rest));
                assert(actions_view(first) =~= seq![ActionModel::Reply(PayloadModel::BroadcastOk)]);
                assert forall|i: int| 0 <= i < out.len() implies (#[trigger] out@[i]).lists_distinct() by {
                    if i > 0 {
                        assert(out@[i] == rest[i - 1]);
                    }
                }
                out
            },
            Payload::Gossip { seen } => {
                match self.receive_gossip(src, &seen) {
                    Some(reply) => {
                        let out = vec![Action::Reply(Payload::GossipOk { seen: reply })];
                        assert(actions_view(out@) =~= outputs(old(self)@, src@, payload@));
                        out
                    },
                    None => {
                        let out: Vec<Action> = Vec::new();
                        assert(actions_view(out@) =~= outputs(old(self)@, src@, payload@));
                        out
                    },
                }
            },
            Payload::GossipOk { seen } => {
                self.receive_gossip_ok(src, &seen);
                let out: Vec<Action> = Vec::new();
                assert(actions_view(out@) =~= outputs(old(self)@, src@, payload@));
                out
            },
            Payload::Read => {
                let mut out = self.sync_with_neighbors();
                let ghost before = out@;
                out.push(Action::Reply(Payload::ReadOk { messages: self.messages() }));
                assert(actions_view(out@) =~= actions_view(before).push(out@.last()@));
                out
            },
            Payload::Topology { topology } => {
                self.apply_topology(&topology);
                let out = vec![Action::Reply(Payload::TopologyOk)];
                assert(actions_view(out@) =~= outputs(old(self)@, src@, payload@));
                out
            },
            _ => {
                let out: Vec<Action> = Vec::new();
                assert(actions_view(out@) =~= outputs(old(self)@, src@, payload@));
                out
            },
        }
    }
}

} // verus!
