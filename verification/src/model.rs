//! The mathematical model of a store of peers: what each peer holds, as plain
//! sequences and maps, and the updates that the protocol makes to it.

use vstd::prelude::*;

verus! {

/// Where a peer stands in its life.
#[derive(Clone, Copy, Debug, PartialEq, Eq, Structural)]
pub enum NodeState {
    /// Constructed, never joined.
    Fresh,
    /// Takes part in routing.
    InRing,
    /// Has left the ring.
    Detached,
}

/// Why a protocol operation gave up.
#[derive(Clone, Copy, Debug, PartialEq, Eq, Structural)]
pub enum ChordError {
    /// A finger of `node` that had to point at a peer is empty.
    MissingSuccessor { node: u8 },
    /// `node` has no finger with this index.
    MissingFingerStart { node: u8, index: u8 },
    /// The predecessor of `node` is empty where it was needed.
    MissingPredecessor { node: u8 },
}

/// What one peer holds.
pub struct PeerView {
    /// The peer's identifier.
    pub id: u8,
    pub state: NodeState,
    /// Entry `i`, for `1 <= i <= 8`, is the peer that finger `i` points at.
    /// Entry 0 is reserved.
    pub fingers: Seq<Option<u8>>,
    pub predecessor: Option<u8>,
    /// The keys that the peer stores, each with its value.
    pub keys: Map<u8, Option<u8>>,
    /// One line for each successful `find` that started at this peer.
    pub lookup_info: Seq<Seq<char>>,
}

/// All peers of a store; the peer with identifier `p` is entry `p`.
pub struct RingView {
    pub peers: Seq<PeerView>,
}

impl PeerView {
    /// A peer that has not joined: no finger, no predecessor, no key.
    pub open spec fn fresh(id: u8) -> PeerView {
        PeerView {
            id,
            state: NodeState::Fresh,
            fingers: Seq::new(9, |i: int| None::<u8>),
            predecessor: None,
            keys: Map::empty(),
            lookup_info: Seq::empty(),
        }
    }

    /// The peer has an entry for each finger, and none in the reserved one.
    pub open spec fn wf(self) -> bool {
        &&& self.fingers.len() == 9
        &&& self.fingers[0] is None
    }
}

impl RingView {
    /// A store in which no peer has joined.
    pub open spec fn fresh() -> RingView {
        RingView { peers: Seq::new(256, |i: int| PeerView::fresh(i as u8)) }
    }

    /// The store has one well-formed peer for each identifier, at the place
    /// of the identifier.
    pub open spec fn wf(self) -> bool {
        &&& self.peers.len() == 256
        &&& forall|p: u8| (#[trigger] self.peers[p as int]).wf() && self.peers[p as int].id == p
    }

    /// The peer with identifier `p`.
    pub open spec fn peer(self, p: u8) -> PeerView {
        self.peers[p as int]
    }

    /// The peer that finger `i` of `p` points at.
    pub open spec fn finger(self, p: u8, i: int) -> Option<u8> {
        self.peers[p as int].fingers[i]
    }

    /// Finger 1 of `p`.
    pub open spec fn successor(self, p: u8) -> Option<u8> {
        self.finger(p, 1)
    }

    /// The predecessor of `p`.
    pub open spec fn predecessor(self, p: u8) -> Option<u8> {
        self.peers[p as int].predecessor
    }

    /// The key store of `p`.
    pub open spec fn keys(self, p: u8) -> Map<u8, Option<u8>> {
        self.peers[p as int].keys
    }

    /// Where `p` stands in its life.
    pub open spec fn state(self, p: u8) -> NodeState {
        self.peers[p as int].state
    }

    /// The trace of `p`.
    pub open spec fn lookup_info(self, p: u8) -> Seq<Seq<char>> {
        self.peers[p as int].lookup_info
    }

    /// Whether `p` is in the ring.
    pub open spec fn is_member(self, p: u8) -> bool {
        self.state(p) == NodeState::InRing
    }

    /// The peers that are in the ring.
    pub open spec fn members(self) -> Set<u8> {
        Set::new(|p: u8| self.is_member(p))
    }

    /// The store with `peer` in the place of `p`.
    pub open spec fn with_peer(self, p: u8, peer: PeerView) -> RingView {
        RingView { peers: self.peers.update(p as int, peer) }
    }

    /// The store in which finger `i` of `p` is `node`.
    pub open spec fn with_finger(self, p: u8, i: int, node: Option<u8>) -> RingView {
        self.with_peer(p, PeerView { fingers: self.peer(p).fingers.update(i, node), ..self.peer(p) })
    }

    /// The store in which the predecessor of `p` is `node`.
    pub open spec fn with_predecessor(self, p: u8, node: Option<u8>) -> RingView {
        self.with_peer(p, PeerView { predecessor: node, ..self.peer(p) })
    }

    /// The store in which the key store of `p` is `keys`.
    pub open spec fn with_keys(self, p: u8, keys: Map<u8, Option<u8>>) -> RingView {
        self.with_peer(p, PeerView { keys, ..self.peer(p) })
    }

    /// The store in which `p` stands at `state`.
    pub open spec fn with_state(self, p: u8, state: NodeState) -> RingView {
        self.with_peer(p, PeerView { state, ..self.peer(p) })
    }

    /// The store in which the trace of `p` has one more line.
    pub open spec fn with_lookup(self, p: u8, line: Seq<char>) -> RingView {
        self.with_peer(p, PeerView { lookup_info: self.peer(p).lookup_info.push(line), ..self.peer(p) })
    }
}

} // verus!
