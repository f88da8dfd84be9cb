//! The peers themselves: a finger table, a key store and a lookup trace for
//! each identifier, all held in one [`NodeStore`], and [`Node`], the handle by
//! which the protocol names a peer.

use vstd::prelude::*;
use std::collections::HashMap;
use crate::model::{ChordError, NodeState, PeerView, RingView};
use crate::text::{
    finger_line, finger_record, header_line, header_record, interval_right, neighbours_line,
    neighbours_record, rule_line, star_line,
};
use crate::ring_math::{
    lemma_two_pow_values, power_of_two, spec_finger_start, BITLENGTH, RING_SIZE,
};

verus! {

broadcast use vstd::std_specs::hash::group_hash_axioms;

/// What a [`Node`] holds: the identifier of the peer, which is also the
/// peer's place in the store.
pub type NodeRef = u8;

/// A handle on a peer.
#[derive(Clone, Copy, Debug, PartialEq, Eq, Structural)]
pub struct Node {
    pub node_inner: NodeRef,
}

/// One routing entry: the start of an interval of identifiers, and the peer
/// believed to be the first at or after that start.
#[derive(Clone, Copy, Debug)]
pub struct Finger {
    pub start: u8,
    pub node: Option<Node>,
}

/// The routing table of one peer: fingers `1 ..= BITLENGTH` and the
/// predecessor. Finger 1 is the successor.
#[derive(Clone)]
pub struct FingerTable {
    node_id: u8,
    predecessor: Option<Node>,
    finger_table: Vec<Finger>,
}

/// The identifier behind an optional handle.
pub open spec fn id_of(node: Option<Node>) -> Option<u8> {
    match node {
        Some(n) => Some(n.node_inner),
        None => None,
    }
}

impl Node {
    /// The handle on the peer with identifier `node_id`.
    pub fn new(node_id: u8) -> (r: Self)
        ensures
            r.node_inner == node_id,
    {
        Self { node_inner: node_id }
    }

    /// The handle that holds `node_inner`.
    pub fn new_inner(node_inner: NodeRef) -> (r: Self)
        ensures
            r.node_inner == node_inner,
    {
        Self { node_inner }
    }

    /// The identifier of the peer.
    pub fn id(&self) -> (r: u8)
        ensures
            r == self.node_inner,
    {
        self.node_inner
    }
}

/// A finger table as lines of text: the header of the peer, its
/// neighbours (the peer itself where one is missing), a title, one line for
/// each finger `1 ..= 8`, a rule and a line of stars.
pub open spec fn table_lines(id: u8, nodes: Seq<Option<u8>>, predecessor: Option<u8>) -> Seq<
    Seq<char>,
> {
    Seq::new(
        13,
        |j: int|
            if j == 0 {
                header_line(id)
            } else if j == 1 {
                neighbours_line(
                    match nodes[1] {
                        Some(s) => s,
                        None => id,
                    },
                    match predecessor {
                        Some(p) => p,
                        None => id,
                    },
                )
            } else if j == 2 {
                "FingerTables:"@
            } else if j <= 10 {
                finger_line(
                    (j - 2) as u8,
                    spec_finger_start(id, j - 2),
                    interval_right(id, j - 2),
                    nodes[j - 2]->0,
                )
            } else if j == 11 {
                rule_line()
            } else {
                star_line()
            },
    )
}

/// The keys below `upto` of a key store, each with its value, in
/// ascending order of the keys.
pub open spec fn key_list(keys: Map<u8, Option<u8>>, upto: int) -> Seq<(u8, Option<u8>)>
    decreases upto,
{
    if upto <= 0 {
        Seq::empty()
    } else if keys.contains_key((upto - 1) as u8) {
        key_list(keys, upto - 1).push(((upto - 1) as u8, keys[(upto - 1) as u8]))
    } else {
        key_list(keys, upto - 1)
    }
}

/// The members below `upto`, in ascending order.
pub open spec fn member_list(rv: RingView, upto: int) -> Seq<u8>
    decreases upto,
{
    if upto <= 0 {
        Seq::empty()
    } else if rv.is_member((upto - 1) as u8) {
        member_list(rv, upto - 1).push((upto - 1) as u8)
    } else {
        member_list(rv, upto - 1)
    }
}

impl Finger {
    /// A finger that starts at `start` and points at `node`.
    pub fn new(start: u8, node: Option<Node>) -> (r: Self)
        ensures
            r.start == start,
            r.node == node,
    {
        Self { start, node }
    }

    /// Points the finger at `node`.
    pub fn set_node(&mut self, node: Node)
        ensures
            final(self).start == old(self).start,
            final(self).node == Some(node),
    {
        self.node = Some(node);
    }
}

impl FingerTable {
    /// Every finger is there, with the start that its index gives it.
    pub closed spec fn wf(&self) -> bool {
        &&& self.finger_table@.len() == 9
        &&& self.finger_table@[0].node is None
        &&& forall|i: int|
            1 <= i <= 8 ==> (#[trigger] self.finger_table@[i]).start == spec_finger_start(
                self.node_id,
                i,
            )
    }

    /// The peer that owns the table.
    pub closed spec fn spec_node_id(&self) -> u8 {
        self.node_id
    }

    /// Entry `i` is the peer that finger `i` points at.
    pub closed spec fn spec_nodes(&self) -> Seq<Option<u8>> {
        Seq::new(9, |i: int| id_of(self.finger_table@[i].node))
    }

    /// The predecessor that the table holds.
    pub closed spec fn spec_predecessor(&self) -> Option<u8> {
        id_of(self.predecessor)
    }

    /// A table with every start computed and no peer in it.
    pub fn new(node_id: u8) -> (r: Self)
        ensures
            r.wf(),
            r.spec_node_id() == node_id,
            r.spec_predecessor() is None,
            r.spec_nodes() == Seq::new(9, |i: int| None::<u8>),
    {
        let mut finger_table = Vec::<Finger>::new();
        finger_table.push(Finger::new(0, None));
        let mut i: u8 = 1;
        while i <= BITLENGTH
            invariant
                1 <= i <= 9,
                finger_table@.len() == i,
                forall|j: int| 0 <= j < i ==> (#[trigger] finger_table@[j]).node is None,
                forall|j: int|
                    1 <= j < i ==> (#[trigger] finger_table@[j]).start == spec_finger_start(
                        node_id,
                        j,
                    ),
            decreases 9 - i,
        {
            let finger_id = FingerTable::finger_id(node_id, i);
            finger_table.push(Finger::new(finger_id, None));
            i = i + 1;
        }
        let r = Self { node_id, predecessor: None, finger_table };
        assert(r.spec_nodes() =~= Seq::new(9, |i: int| None::<u8>));
        r
    }

    /// Points finger `index` at `successor`.
    pub fn set(&mut self, index: u8, successor: Node)
        requires
            old(self).wf(),
            1 <= index <= BITLENGTH,
        ensures
            final(self).wf(),
            final(self).spec_node_id() == old(self).spec_node_id(),
            final(self).spec_predecessor() == old(self).spec_predecessor(),
            final(self).spec_nodes() == old(self).spec_nodes().update(
                index as int,
                Some(successor.node_inner),
            ),
    {
        let start = FingerTable::finger_id(self.node_id, index);
        self.finger_table[index as usize] = Finger::new(start, Some(successor));
        assert(final(self).spec_nodes() =~= old(self).spec_nodes().update(
            index as int,
            Some(successor.node_inner),
        ));
    }

    /// Finger `index`.
    pub fn get(&self, index: u8) -> (r: &Finger)
        requires
            self.wf(),
            1 <= index <= BITLENGTH,
        ensures
            r.start == spec_finger_start(self.spec_node_id(), index as int),
            id_of(r.node) == self.spec_nodes()[index as int],
    {
        &self.finger_table[index as usize]
    }

    /// The start of finger `index`, if the table has such a finger.
    pub fn get_start(&self, index: u8) -> (r: Result<u8, ChordError>)
        requires
            self.wf(),
        ensures
            1 <= index <= 8 ==> r == Ok::<u8, ChordError>(
                spec_finger_start(self.spec_node_id(), index as int),
            ),
            !(1 <= index <= 8) ==> r == Err::<u8, ChordError>(
                (ChordError::MissingFingerStart { node: self.spec_node_id(), index }),
            ),
    {
        if 1 <= index && index <= BITLENGTH {
            Ok(self.finger_table[index as usize].start)
        } else {
            Err(ChordError::MissingFingerStart { node: self.node_id, index })
        }
    }

    /// The identifier of the successor, or of the table's own peer where it
    /// has none.
    pub fn get_successor_id(&self) -> (r: u8)
        requires
            self.wf(),
        ensures
            r == match self.spec_nodes()[1] {
                Some(s) => s,
                None => self.spec_node_id(),
            },
    {
        match self.get(1).node {
            Some(successor) => successor.node_inner,
            None => self.node_id,
        }
    }

    /// The successor: the peer that finger 1 points at.
    pub fn get_successor_node(&self) -> (r: Option<Node>)
        requires
            self.wf(),
        ensures
            id_of(r) == self.spec_nodes()[1],
    {
        self.get(1).node
    }

    /// Points finger 1 at `node`.
    pub fn set_successor(&mut self, node: Node)
        requires
            old(self).wf(),
        ensures
            final(self).wf(),
            final(self).spec_node_id() == old(self).spec_node_id(),
            final(self).spec_predecessor() == old(self).spec_predecessor(),
            final(self).spec_nodes() == old(self).spec_nodes().update(1, Some(node.node_inner)),
    {
        self.set(1, node);
    }

    /// Takes `predecessor` as the predecessor.
    pub fn set_predecessor(&mut self, predecessor: Option<Node>)
        requires
            old(self).wf(),
        ensures
            final(self).wf(),
            final(self).spec_node_id() == old(self).spec_node_id(),
            final(self).spec_predecessor() == id_of(predecessor),
            final(self).spec_nodes() == old(self).spec_nodes(),
    {
        self.predecessor = predecessor;
    }

    /// The predecessor.
    pub fn get_predecessor(&self) -> (r: Option<Node>)
        ensures
            id_of(r) == self.spec_predecessor(),
    {
        self.predecessor
    }

    /// The identifier of the predecessor, or of the table's own peer where it
    /// has none.
    pub fn get_predecessor_id(&self) -> (r: u8)
        ensures
            r == match self.spec_predecessor() {
                Some(p) => p,
                None => self.spec_node_id(),
            },
    {
        match self.predecessor {
            Some(pre) => pre.node_inner,
            None => self.node_id,
        }
    }

    /// The table as lines of text: a header, the neighbours, one line for
    /// each finger, and two closing lines. Every finger has to point at
    /// a peer.
    pub fn pretty_print(&self) -> (lines: Vec<String>)
        requires
            self.wf(),
            forall|i: int| 1 <= i <= 8 ==> (#[trigger] self.spec_nodes()[i]) is Some,
        ensures
            lines@.map_values(|line: String| line@) == table_lines(
                self.spec_node_id(),
                self.spec_nodes(),
                self.spec_predecessor(),
            ),
    {
        let mut lines: Vec<String> = Vec::new();
        lines.push(header_record(self.node_id));
        lines.push(neighbours_record(self.get_successor_id(), self.get_predecessor_id()));
        lines.push(String::from_str("FingerTables:"));
        let mut i: u8 = 1;
        while i <= BITLENGTH
            invariant
                1 <= i <= 9,
                self.wf(),
                forall|j: int| 1 <= j <= 8 ==> (#[trigger] self.spec_nodes()[j]) is Some,
                lines@.len() == 2 + i,
                lines@.map_values(|line: String| line@) == table_lines(
                    self.spec_node_id(),
                    self.spec_nodes(),
                    self.spec_predecessor(),
                ).take(2 + i),
            decreases 9 - i,
        {
            let finger = self.get(i);
            let interval_right: u8 = if i >= BITLENGTH {
                self.node_id
            } else {
                match self.get_start(i + 1) {
                    Ok(start) => start,
                    Err(_) => self.node_id,
                }
            };
            let node_id: u8 = match finger.node {
                Some(n) => n.node_inner,
                None => self.node_id,
            };
            let ghost earlier = lines@.map_values(|line: String| line@);
            let line = finger_record(i, finger.start, interval_right, node_id);
            lines.push(line);
            proof {
                assert(self.spec_nodes()[i as int] is Some);
                let all = table_lines(
                    self.spec_node_id(),
                    self.spec_nodes(),
                    self.spec_predecessor(),
                );
                assert(all[2 + i] == line@);
                assert(lines@.map_values(|line: String| line@) =~= earlier.push(line@));
                assert(all.take(2 + i + 1) =~= all.take(2 + i).push(all[2 + i]));
            }
            i = i + 1;
        }
        let ghost earlier = lines@.map_values(|line: String| line@);
        let rule = String::from_str("------------------------------");
        let stars = String::from_str("******************************");
        lines.push(rule);
        lines.push(stars);
        proof {
            let all = table_lines(self.spec_node_id(), self.spec_nodes(), self.spec_predecessor());
            assert(lines@.map_values(|line: String| line@) =~= earlier.push(rule@).push(stars@));
            assert(all =~= all.take(11).push(all[11]).push(all[12]));
        }
        lines
    }

    /// Start of finger `index` of the peer `node_id`:
    /// `(node_id + 2^(index-1)) mod 2^8`.
    pub fn finger_id(node_id: u8, index: u8) -> (r: u8)
        requires
            1 <= index <= BITLENGTH,
        ensures
            r == spec_finger_start(node_id, index as int),
    {
        let offset: u32 = power_of_two(index - 1);
        proof {
            lemma_two_pow_values();
        }
        let id: u32 = (node_id as u32 + offset) % RING_SIZE;
        id as u8
    }
}

/// Everything one peer holds.
#[derive(Clone)]
pub struct NodeInner {
    id: u8,
    finger_table: FingerTable,
    local_keys: HashMap<u8, Option<u8>>,
    lookup_info: Vec<String>,
    state: NodeState,
}

impl View for NodeInner {
    type V = PeerView;

    closed spec fn view(&self) -> PeerView {
        PeerView {
            id: self.id,
            state: self.state,
            fingers: self.finger_table.spec_nodes(),
            predecessor: self.finger_table.spec_predecessor(),
            keys: self.local_keys@,
            lookup_info: self.lookup_info@.map_values(|line: String| line@),
        }
    }
}

impl NodeInner {
    /// The finger table is well-formed and is that of the peer.
    pub closed spec fn wf(&self) -> bool {
        &&& self.finger_table.wf()
        &&& self.finger_table.spec_node_id() == self.id
    }

    /// A peer that has not joined.
    pub fn new(node_id: u8) -> (r: Self)
        ensures
            r.wf(),
            r@ == PeerView::fresh(node_id),
    {
        let r = Self {
            id: node_id,
            finger_table: FingerTable::new(node_id),
            local_keys: HashMap::<u8, Option<u8>>::new(),
            lookup_info: Vec::new(),
            state: NodeState::Fresh,
        };
        assert(r@.lookup_info =~= Seq::empty());
        r
    }
}

/// All peers of one ring, one for each identifier. A peer is `Fresh` until
/// it joins.
#[derive(Clone)]
pub struct NodeStore {
    nodes: Vec<NodeInner>,
}

impl View for NodeStore {
    type V = RingView;

    closed spec fn view(&self) -> RingView {
        RingView { peers: Seq::new(256, |i: int| self.nodes@[i]@) }
    }
}

impl NodeStore {
    /// The store holds one well-formed peer for each identifier.
    pub closed spec fn repr_wf(&self) -> bool {
        &&& self.nodes@.len() == 256
        &&& forall|i: int| 0 <= i < 256 ==> (#[trigger] self.nodes@[i]).wf() && self.nodes@[i].id == i
    }

    /// The store is well-formed, and so is its model.
    pub open spec fn wf(&self) -> bool {
        &&& self.repr_wf()
        &&& self@.wf()
    }

    /// A store in which no peer has joined.
    pub fn new() -> (r: Self)
        ensures
            r.wf(),
            r@ == RingView::fresh(),
    {
        let mut nodes = Vec::<NodeInner>::new();
        let mut i: usize = 0;
        while i < 256
            invariant
                i <= 256,
                nodes@.len() == i,
                forall|j: int|
                    0 <= j < i ==> (#[trigger] nodes@[j]).wf() && nodes@[j]@ == PeerView::fresh(
                        j as u8,
                    ),
            decreases 256 - i,
        {
            nodes.push(NodeInner::new(i as u8));
            i = i + 1;
        }
        let r = Self { nodes };
        assert(r@.peers =~= RingView::fresh().peers);
        r
    }

    /// The peer that finger `index` of `n` points at.
    pub fn finger(&self, n: Node, index: u8) -> (r: Option<Node>)
        requires
            self.wf(),
            1 <= index <= BITLENGTH,
        ensures
            id_of(r) == self@.finger(n.node_inner, index as int),
    {
        self.nodes[n.node_inner as usize].finger_table.get(index).node
    }

    /// The successor of `n`: the peer that its finger 1 points at.
    pub fn successor_of(&self, n: Node) -> (r: Option<Node>)
        requires
            self.wf(),
        ensures
            id_of(r) == self@.successor(n.node_inner),
    {
        self.nodes[n.node_inner as usize].finger_table.get_successor_node()
    }

    /// The predecessor of `n`.
    pub fn predecessor_of(&self, n: Node) -> (r: Option<Node>)
        requires
            self.wf(),
        ensures
            id_of(r) == self@.predecessor(n.node_inner),
    {
        self.nodes[n.node_inner as usize].finger_table.get_predecessor()
    }

    /// Where `n` stands in its life.
    pub fn state_of(&self, n: Node) -> (r: NodeState)
        requires
            self.wf(),
        ensures
            r == self@.state(n.node_inner),
    {
        self.nodes[n.node_inner as usize].state
    }

    /// Whether `n` stores `key`.
    pub fn has_key(&self, n: Node, key: u8) -> (r: bool)
        requires
            self.wf(),
        ensures
            r == self@.keys(n.node_inner).contains_key(key),
    {
        self.nodes[n.node_inner as usize].local_keys.contains_key(&key)
    }

    /// The value that `n` stores under `key`.
    pub fn key_value(&self, n: Node, key: u8) -> (r: Option<Option<u8>>)
        requires
            self.wf(),
        ensures
            r == (if self@.keys(n.node_inner).contains_key(key) {
                Some(self@.keys(n.node_inner)[key])
            } else {
                None
            }),
    {
        match self.nodes[n.node_inner as usize].local_keys.get(&key) {
            Some(v) => Some(*v),
            None => None,
        }
    }

    /// The finger table of `n`.
    pub fn table(&self, n: Node) -> (r: &FingerTable)
        requires
            self.wf(),
        ensures
            r.wf(),
            r.spec_node_id() == n.node_inner,
            r.spec_nodes() == self@.peer(n.node_inner).fingers,
            r.spec_predecessor() == self@.predecessor(n.node_inner),
    {
        &self.nodes[n.node_inner as usize].finger_table
    }

    /// The keys that `n` stores, each with its value, in ascending order of
    /// the keys.
    pub fn keys_of(&self, n: Node) -> (r: Vec<(u8, Option<u8>)>)
        requires
            self.wf(),
        ensures
            r@ == key_list(self@.keys(n.node_inner), 256),
    {
        let mut r: Vec<(u8, Option<u8>)> = Vec::new();
        let mut k: usize = 0;
        while k < 256
            invariant
                k <= 256,
                self.wf(),
                r@ == key_list(self@.keys(n.node_inner), k as int),
            decreases 256 - k,
        {
            match self.key_value(n, k as u8) {
                Some(v) => {
                    r.push((k as u8, v));
                },
                None => {},
            }
            k = k + 1;
        }
        r
    }

    /// The trace of `n`: one line for each lookup from `n` that found its
    /// key.
    pub fn lookup_results(&self, n: Node) -> (r: Vec<String>)
        requires
            self.wf(),
        ensures
            r@.map_values(|line: String| line@) == self@.lookup_info(n.node_inner),
    {
        let mut r: Vec<String> = Vec::new();
        let mut i: usize = 0;
        let info = &self.nodes[n.node_inner as usize].lookup_info;
        while i < info.len()
            invariant
                i <= info@.len(),
                r@.len() == i,
                r@.map_values(|line: String| line@) == info@.map_values(|line: String| line@).take(
                    i as int,
                ),
            decreases info@.len() - i,
        {
            let ghost earlier = r@.map_values(|line: String| line@);
            let line = info[i].clone();
            r.push(line);
            proof {
                let all = info@.map_values(|line: String| line@);
                assert(r@.map_values(|line: String| line@) =~= earlier.push(line@));
                assert(all.take(i + 1) =~= all.take(i as int).push(all[i as int]));
            }
            i = i + 1;
        }
        proof {
            let all = info@.map_values(|line: String| line@);
            assert(all.take(info@.len() as int) =~= all);
        }
        r
    }

    /// The identifiers of the peers that are in the ring, in ascending
    /// order.
    pub fn members(&self) -> (r: Vec<u8>)
        requires
            self.wf(),
        ensures
            r@ == member_list(self@, 256),
    {
        let mut r: Vec<u8> = Vec::new();
        let mut k: usize = 0;
        while k < 256
            invariant
                k <= 256,
                self.wf(),
                r@ == member_list(self@, k as int),
            decreases 256 - k,
        {
            match self.nodes[k].state {
                NodeState::InRing => {
                    r.push(k as u8);
                },
                _ => {},
            }
            k = k + 1;
        }
        r
    }

    pub(crate) fn set_finger(&mut self, n: Node, index: u8, node: Node)
        requires
            old(self).wf(),
            1 <= index <= BITLENGTH,
        ensures
            final(self).wf(),
            final(self)@ == old(self)@.with_finger(
                n.node_inner,
                index as int,
                Some(node.node_inner),
            ),
    {
        self.nodes[n.node_inner as usize].finger_table.set(index, node);
        assert(final(self)@.peers =~= old(self)@.with_finger(
            n.node_inner,
            index as int,
            Some(node.node_inner),
        ).peers);
    }

    pub(crate) fn set_predecessor(&mut self, n: Node, predecessor: Option<Node>)
        requires
            old(self).wf(),
        ensures
            final(self).wf(),
            final(self)@ == old(self)@.with_predecessor(n.node_inner, id_of(predecessor)),
    {
        self.nodes[n.node_inner as usize].finger_table.set_predecessor(predecessor);
        assert(final(self)@.peers =~= old(self)@.with_predecessor(
            n.node_inner,
            id_of(predecessor),
        ).peers);
    }

    pub(crate) fn set_state(&mut self, n: Node, state: NodeState)
        requires
            old(self).wf(),
        ensures
            final(self).wf(),
            final(self)@ == old(self)@.with_state(n.node_inner, state),
    {
        self.nodes[n.node_inner as usize].state = state;
        assert(final(self)@.peers =~= old(self)@.with_state(n.node_inner, state).peers);
    }

    pub(crate) fn put_key(&mut self, n: Node, key: u8, value: Option<u8>)
        requires
            old(self).wf(),
        ensures
            final(self).wf(),
            final(self)@ == old(self)@.with_keys(
                n.node_inner,
                old(self)@.keys(n.node_inner).insert(key, value),
            ),
    {
        self.nodes[n.node_inner as usize].local_keys.insert(key, value);
        assert(final(self)@.peers =~= old(self)@.with_keys(
            n.node_inner,
            old(self)@.keys(n.node_inner).insert(key, value),
        ).peers);
    }

    pub(crate) fn take_key(&mut self, n: Node, key: u8)
        requires
            old(self).wf(),
        ensures
            final(self).wf(),
            final(self)@ == old(self)@.with_keys(
                n.node_inner,
                old(self)@.keys(n.node_inner).remove(key),
            ),
    {
        self.nodes[n.node_inner as usize].local_keys.remove(&key);
        assert(final(self)@.peers =~= old(self)@.with_keys(
            n.node_inner,
            old(self)@.keys(n.node_inner).remove(key),
        ).peers);
    }

    pub(crate) fn record_lookup(&mut self, n: Node, line: String)
        requires
            old(self).wf(),
        ensures
            final(self).wf(),
            final(self)@ == old(self)@.with_lookup(n.node_inner, line@),
    {
        self.nodes[n.node_inner as usize].lookup_info.push(line);
        assert(final(self)@.peer(n.node_inner).lookup_info =~= old(self)@.peer(
            n.node_inner,
        ).lookup_info.push(line@));
        assert(final(self)@.peers =~= old(self)@.with_lookup(n.node_inner, line@).peers);
    }
}

} // verus!
