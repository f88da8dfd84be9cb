//! Joining: a new peer fills its finger table through a peer of the ring,
//! has the peers that should point at it patch their tables, and takes over
//! the keys that it now owns.

use vstd::prelude::*;
use crate::join_proof::{
    join_successor, lemma_first_join, lemma_init_finger_table, lemma_join_keeps_exact,
    lemma_join_keeps_ring, table_initialised,
};
use crate::keys::{lines_of, marked, migrate, migration_lines, move_keys};
use crate::ring::{links_ok, ring_exact, ring_ok};
use crate::model::{ChordError, NodeState, PeerView, RingView};
use crate::node::{id_of, FingerTable, Node, NodeStore};
use crate::ring_math::{
    left_closed, lemma_two_pow_values, power_of_two, ring_dist, spec_decrease, spec_finger_start,
    two_pow, BITLENGTH,
};
use crate::routing::{find_predecessor_walk, find_successor_walk};

verus! {

/// How many of the peers `0 .. upto` have `target` as their finger `i`.
pub open spec fn fingers_matching(rv: RingView, i: int, target: Option<u8>, upto: int) -> int
    decreases upto,
{
    if upto <= 0 {
        0
    } else {
        fingers_matching(rv, i, target, upto - 1) + if rv.finger((upto - 1) as u8, i) == target {
            1int
        } else {
            0int
        }
    }
}

/// A patch of one finger changes the count of the fingers that match a
/// target by what it does to that one finger.
pub proof fn lemma_patch_changes_count(
    rv: RingView,
    p: u8,
    i: int,
    node: Option<u8>,
    target: Option<u8>,
    upto: int,
)
    requires
        rv.wf(),
        1 <= i <= 8,
        0 <= upto <= 256,
    ensures
        0 <= fingers_matching(rv, i, target, upto) <= upto,
        0 <= fingers_matching(rv.with_finger(p, i, node), i, target, upto) <= upto,
        fingers_matching(rv.with_finger(p, i, node), i, target, upto) == fingers_matching(
            rv,
            i,
            target,
            upto,
        ) + (if p < upto && node == target && rv.finger(p, i) != target {
            1int
        } else if p < upto && node != target && rv.finger(p, i) == target {
            -1int
        } else {
            0int
        }),
        rv.with_finger(p, i, node).wf(),
    decreases upto,
{
    if upto > 0 {
        lemma_patch_changes_count(rv, p, i, node, target, upto - 1);
    }
    assert(rv.peers[p as int].wf());
}

/// What `update_finger_table` makes of a store: the peer `p` takes `s` as
/// its finger `i` where `s` is another peer that lies in `[p, finger i of p)`,
/// and then its predecessor does the same, until one peer keeps its finger.
pub open spec fn update_finger_table_chain(rv: RingView, p: u8, s: u8, i: int) -> (
    RingView,
    Result<(), ChordError>,
)
    decreases 256 - fingers_matching(rv, i, Some(s), 256),
    when rv.wf() && 1 <= i <= 8
{
    if s == p {
        (rv, Ok(()))
    } else {
        match rv.finger(p, i) {
            None => (rv, Err(ChordError::MissingSuccessor { node: p })),
            Some(f) => if left_closed(s, p, f) {
                let patched = rv.with_finger(p, i, Some(s));
                match patched.predecessor(p) {
                    None => (patched, Err(ChordError::MissingPredecessor { node: p })),
                    Some(q) => {
                        proof {
                            lemma_patch_changes_count(rv, p, i, Some(s), Some(s), 256);
                        }
                        update_finger_table_chain(patched, q, s, i)
                    },
                }
            } else {
                (rv, Ok(()))
            },
        }
    }
}

/// What the loop of `init_finger_table` makes of a store from finger
/// `i + 1` on: the new peer `n` takes for each further finger the peer of
/// the finger before it, where the start of the further finger lies in
/// `[n, that peer)`, and else the owner that a lookup from `b` finds for the
/// start.
pub open spec fn init_fingers_from(rv: RingView, n: u8, b: u8, i: int) -> (
    RingView,
    Result<(), ChordError>,
)
    decreases 8 - i,
{
    if i >= 8 {
        (rv, Ok(()))
    } else {
        let start = spec_finger_start(n, i + 1);
        if rv.finger(n, i) is Some && left_closed(start, n, rv.finger(n, i)->0) {
            init_fingers_from(rv.with_finger(n, i + 1, rv.finger(n, i)), n, b, i + 1)
        } else {
            match find_successor_walk(rv, b, start) {
                Ok(s) => init_fingers_from(rv.with_finger(n, i + 1, Some(s)), n, b, i + 1),
                Err(e) => (rv, Err(e)),
            }
        }
    }
}

/// What `init_finger_table` makes of a store: the new peer `n` takes as
/// successor the owner that a lookup from `b` finds for the start of its
/// finger 1, takes over that peer's predecessor, becomes that peer's
/// predecessor, and fills its other fingers.
pub open spec fn init_finger_table_result(rv: RingView, n: u8, b: u8) -> (
    RingView,
    Result<(), ChordError>,
) {
    match find_successor_walk(rv, b, spec_finger_start(n, 1)) {
        Err(e) => (rv, Err(e)),
        Ok(s) => {
            let linked = rv.with_finger(n, 1, Some(s));
            let linked = linked.with_predecessor(n, linked.predecessor(s));
            let linked = linked.with_predecessor(s, Some(n));
            init_fingers_from(linked, n, b, 1)
        },
    }
}

/// The identifier `2^(i-1)` positions counter-clockwise from `n`.
pub open spec fn finger_origin(n: u8, i: int) -> u8 {
    spec_decrease(n, two_pow((i - 1) as nat) as u8)
}

/// What `update_others` makes of a store from finger `i` on: for each
/// finger, the lookup from `n` of the identifier `2^(i-1)` before `n` ends at a
/// peer; from that peer, or from its successor where that is the identifier
/// itself, the peers take `n` as their finger `i` as
/// `update_finger_table_chain` says.
pub open spec fn update_others_from(rv: RingView, n: u8, i: int) -> (
    RingView,
    Result<(), ChordError>,
)
    decreases 9 - i,
{
    if i > 8 || i < 1 {
        (rv, Ok(()))
    } else {
        let prev = finger_origin(n, i);
        match find_predecessor_walk(rv, n, prev) {
            Err(e) => (rv, Err(e)),
            Ok(p) => match rv.successor(p) {
                None => (rv, Err(ChordError::MissingSuccessor { node: p })),
                Some(ps) => {
                    let first = if prev == ps {
                        ps
                    } else {
                        p
                    };
                    let (patched, r) = update_finger_table_chain(rv, first, n, i);
                    match r {
                        Err(e) => (patched, Err(e)),
                        Ok(_) => update_others_from(patched, n, i + 1),
                    }
                },
            },
        }
    }
}

/// The keys of `s` that a lookup from `n` gives to `n`.
pub open spec fn keys_to_take(rv: RingView, n: u8, s: u8) -> Set<u8> {
    Set::new(
        |k: u8| rv.keys(s).contains_key(k) && find_successor_walk(rv, n, k) == Ok::<u8, ChordError>(n),
    )
}

/// The error of the lowest key below `upto` that `s` stores and whose
/// lookup from `n` fails.
pub open spec fn first_failed_lookup(rv: RingView, n: u8, s: u8, upto: int) -> Option<ChordError>
    decreases upto,
{
    if upto <= 0 {
        None
    } else {
        match first_failed_lookup(rv, n, s, upto - 1) {
            Some(e) => Some(e),
            None => if rv.keys(s).contains_key((upto - 1) as u8) {
                match find_successor_walk(rv, n, (upto - 1) as u8) {
                    Err(e) => Some(e),
                    Ok(_) => None,
                }
            } else {
                None
            },
        }
    }
}

/// The lowest failed lookup stays the lowest when more keys are looked at.
pub proof fn lemma_first_failure_stays(rv: RingView, n: u8, s: u8, j: int, upto: int)
    requires
        first_failed_lookup(rv, n, s, j) is Some,
        j <= upto,
    ensures
        first_failed_lookup(rv, n, s, upto) == first_failed_lookup(rv, n, s, j),
    decreases upto - j,
{
    if j < upto {
        lemma_first_failure_stays(rv, n, s, j, upto - 1);
    }
}

/// What `transfer_keys` makes of a store and answers: the keys of the
/// successor of `n` that a lookup from `n` gives to `n` move to `n`, with one
/// record each. Where the lookup of a key fails, no key moves.
pub open spec fn transfer_keys_result(rv: RingView, n: u8) -> (
    RingView,
    Result<Seq<Seq<char>>, ChordError>,
) {
    match rv.successor(n) {
        None => (rv, Err(ChordError::MissingSuccessor { node: n })),
        Some(s) => match first_failed_lookup(rv, n, s, 256) {
            Some(e) => (rv, Err(e)),
            None => (
                move_keys(rv, s, n, keys_to_take(rv, n, s)),
                Ok(migration_lines(keys_to_take(rv, n, s), s, n, 256)),
            ),
        },
    }
}

/// The fingers of the first peer of a ring: each points at the peer itself.
pub open spec fn own_fingers(n: u8) -> Seq<Option<u8>> {
    Seq::new(
        9,
        |i: int|
            if i == 0 {
                None
            } else {
                Some(n)
            },
    )
}

/// The store after `n` has become the first peer of a ring.
pub open spec fn bootstrap(rv: RingView, n: u8) -> RingView {
    rv.with_peer(
        n,
        PeerView {
            fingers: own_fingers(n),
            predecessor: Some(n),
            state: NodeState::InRing,
            ..rv.peer(n)
        },
    )
}

/// What `join` makes of a store and answers. Without a peer to join through,
/// `n` becomes the first peer of a ring. Through `b`, `n` fills its table,
/// has the others patch theirs, takes over its keys and is in the ring; the
/// first step that fails ends the join, and `n` is then not in the ring.
pub open spec fn join_result(rv: RingView, n: u8, via: Option<u8>) -> (
    RingView,
    Result<Seq<Seq<char>>, ChordError>,
) {
    match via {
        None => (bootstrap(rv, n), Ok(Seq::empty())),
        Some(b) => {
            let (filled, r1) = init_finger_table_result(rv, n, b);
            match r1 {
                Err(e) => (filled, Err(e)),
                Ok(_) => {
                    let (patched, r2) = update_others_from(filled, n, 1);
                    match r2 {
                        Err(e) => (patched, Err(e)),
                        Ok(_) => {
                            let (moved, r3) = transfer_keys_result(patched, n);
                            match r3 {
                                Err(e) => (moved, Err(e)),
                                Ok(lines) => (moved.with_state(n, NodeState::InRing), Ok(lines)),
                            }
                        },
                    }
                },
            }
        },
    }
}

/// The lines in a result.
pub open spec fn result_lines(r: Result<Vec<String>, ChordError>) -> Result<
    Seq<Seq<char>>,
    ChordError,
> {
    match r {
        Ok(records) => Ok(lines_of(records@)),
        Err(e) => Err(e),
    }
}

impl Node {
    /// Brings this peer into the ring: as its first peer where `node` is
    /// `None`, else through the peer `node`. Answers with the records of the
    /// keys that moved to this peer.
    pub fn join(&mut self, store: &mut NodeStore, node: Option<Node>) -> (r: Result<
        Vec<String>,
        ChordError,
    >)
        requires
            old(store).wf(),
        ensures
            *final(self) == *old(self),
            final(store).wf(),
            (final(store)@, result_lines(r)) == join_result(
                old(store)@,
                old(self).node_inner,
                id_of(node),
            ),
            ring_ok(old(store)@) && !old(store)@.is_member(old(self).node_inner) && (match node {
                Some(b) => old(store)@.is_member(b.node_inner),
                None => forall|p: u8| !old(store)@.is_member(p),
            }) ==> r is Ok && ring_ok(final(store)@) && final(store)@.members() == old(
                store,
            )@.members().insert(old(self).node_inner),
            ring_exact(old(store)@) && !old(store)@.is_member(old(self).node_inner) && (match node {
                Some(b) => old(store)@.is_member(b.node_inner),
                None => false,
            }) ==> (ring_exact(final(store)@) <==> exists|m: u8|
                old(store)@.is_member(m) && #[trigger] ring_dist(m, old(self).node_inner) <= 128),
    {
        proof {
            let rv = old(store)@;
            let n = old(self).node_inner;
            if ring_ok(rv) && !rv.is_member(n) {
                match node {
                    Some(b) => {
                        if rv.is_member(b.node_inner) {
                            lemma_join_keeps_ring(rv, n, b.node_inner);
                            if ring_exact(rv) {
                                lemma_join_keeps_exact(rv, n, b.node_inner);
                            }
                        }
                    },
                    None => {
                        if forall|p: u8| !rv.is_member(p) {
                            lemma_first_join(rv, n);
                            assert(rv.members() =~= Set::<u8>::empty());
                        }
                    },
                }
            }
        }
        match node {
            Some(n) => {
                match self.init_finger_table(store, n) {
                    Ok(_) => {},
                    Err(e) => {
                        return Err(e);
                    },
                }
                match self.update_others(store) {
                    Ok(_) => {},
                    Err(e) => {
                        return Err(e);
                    },
                }
                let records = match self.transfer_keys(store) {
                    Ok(records) => records,
                    Err(e) => {
                        return Err(e);
                    },
                };
                store.set_state(*self, NodeState::InRing);
                Ok(records)
            },
            None => {
                let me = *self;
                let mut i: u8 = 1;
                proof {
                    assert(old(store)@.peers[me.node_inner as int].wf());
                    let same = old(store)@.with_peer(
                        me.node_inner,
                        PeerView {
                            fingers: Seq::new(
                                9,
                                |j: int|
                                    if 1 <= j < 1 {
                                        Some(me.node_inner)
                                    } else {
                                        old(store)@.peer(me.node_inner).fingers[j]
                                    },
                            ),
                            ..old(store)@.peer(me.node_inner)
                        },
                    );
                    assert(same.peer(me.node_inner).fingers =~= old(store)@.peer(
                        me.node_inner,
                    ).fingers);
                    assert(same.peers =~= old(store)@.peers);
                }
                while i <= BITLENGTH
                    invariant
                        1 <= i <= 9,
                        me == *self,
                        store.wf(),
                        old(store)@.wf(),
                        store@ == old(store)@.with_peer(
                            me.node_inner,
                            PeerView {
                                fingers: Seq::new(
                                    9,
                                    |j: int|
                                        if 1 <= j < i {
                                            Some(me.node_inner)
                                        } else {
                                            old(store)@.peer(me.node_inner).fingers[j]
                                        },
                                ),
                                ..old(store)@.peer(me.node_inner)
                            },
                        ),
                    decreases 9 - i,
                {
                    let ghost mid = store@;
                    store.set_finger(me, i, me);
                    proof {
                        let want = old(store)@.with_peer(
                            me.node_inner,
                            PeerView {
                                fingers: Seq::new(
                                    9,
                                    |j: int|
                                        if 1 <= j < i + 1 {
                                            Some(me.node_inner)
                                        } else {
                                            old(store)@.peer(me.node_inner).fingers[j]
                                        },
                                ),
                                ..old(store)@.peer(me.node_inner)
                            },
                        );
                        assert(old(store)@.peers[me.node_inner as int].wf());
                        assert(mid.peer(me.node_inner).fingers.len() == 9);
                        assert(store@ == mid.with_finger(
                            me.node_inner,
                            i as int,
                            Some(me.node_inner),
                        ));
                        assert(store@.peer(me.node_inner).fingers =~= want.peer(
                            me.node_inner,
                        ).fingers);
                        assert(store@.peers =~= want.peers);
                    }
                    i = i + 1;
                }
                store.set_predecessor(me, Some(me));
                store.set_state(me, NodeState::InRing);
                proof {
                    let want = bootstrap(old(store)@, me.node_inner);
                    assert(old(store)@.peer(me.node_inner).wf());
                    assert(store@.peer(me.node_inner).fingers =~= own_fingers(me.node_inner));
                    assert(store@.peers =~= want.peers);
                }
                let records: Vec<String> = Vec::new();
                assert(lines_of(records@) =~= Seq::<Seq<char>>::empty());
                Ok(records)
            },
        }
    }

    /// Fills the finger table of this peer through the peer `node`, and
    /// links this peer in front of its successor.
    pub fn init_finger_table(&mut self, store: &mut NodeStore, node: Node) -> (r: Result<
        (),
        ChordError,
    >)
        requires
            old(store).wf(),
        ensures
            *final(self) == *old(self),
            final(store).wf(),
            (final(store)@, r) == init_finger_table_result(
                old(store)@,
                old(self).node_inner,
                node.node_inner,
            ),
            links_ok(old(store)@, old(store)@.members()) && !old(store)@.is_member(
                old(self).node_inner,
            ) && old(store)@.is_member(node.node_inner) ==> r is Ok && table_initialised(
                final(store)@,
                old(store)@,
                old(store)@.members(),
                old(self).node_inner,
                join_successor(old(store)@, old(self).node_inner, node.node_inner),
            ),
    {
        proof {
            let rv = old(store)@;
            if links_ok(rv, rv.members()) && !rv.is_member(old(self).node_inner) && rv.is_member(
                node.node_inner,
            ) {
                lemma_init_finger_table(rv, rv.members(), old(self).node_inner, node.node_inner);
            }
        }
        let me = *self;
        let first_start = FingerTable::finger_id(me.node_inner, 1);
        let node_successor = match node.find_successor(store, first_start) {
            Ok(s) => s,
            Err(e) => {
                return Err(e);
            },
        };
        store.set_finger(me, 1, node_successor);
        let predecessor = node_successor.predecessor(store);
        store.set_predecessor(me, predecessor);
        store.set_predecessor(node_successor, Some(me));
        let mut i: u8 = 1;
        while i <= BITLENGTH - 1
            invariant
                1 <= i <= 8,
                me == *self,
                me == *old(self),
                store.wf(),
                init_fingers_from(store@, me.node_inner, node.node_inner, i as int)
                    == init_finger_table_result(old(store)@, me.node_inner, node.node_inner),
                links_ok(old(store)@, old(store)@.members()) && !old(store)@.is_member(
                    me.node_inner,
                ) && old(store)@.is_member(node.node_inner) ==> init_finger_table_result(
                    old(store)@,
                    me.node_inner,
                    node.node_inner,
                ).1 is Ok && table_initialised(
                    init_finger_table_result(old(store)@, me.node_inner, node.node_inner).0,
                    old(store)@,
                    old(store)@.members(),
                    me.node_inner,
                    join_successor(old(store)@, me.node_inner, node.node_inner),
                ),
            decreases 8 - i,
        {
            let start = FingerTable::finger_id(me.node_inner, i + 1);
            let finger_pre = store.finger(me, i);
            let reused = match finger_pre {
                Some(fp) => {
                    if self.e_is_between_ring(start, me.node_inner, fp.node_inner) {
                        Some(fp)
                    } else {
                        None
                    }
                },
                None => None,
            };
            match reused {
                Some(fp) => {
                    store.set_finger(me, i + 1, fp);
                },
                None => {
                    let found = match node.find_successor(store, start) {
                        Ok(s) => s,
                        Err(e) => {
                            return Err(e);
                        },
                    };
                    store.set_finger(me, i + 1, found);
                },
            }
            i = i + 1;
        }
        Ok(())
    }

    /// Has every peer that should point at this peer patch its table.
    pub fn update_others(&mut self, store: &mut NodeStore) -> (r: Result<(), ChordError>)
        requires
            old(store).wf(),
        ensures
            *final(self) == *old(self),
            final(store).wf(),
            (final(store)@, r) == update_others_from(old(store)@, old(self).node_inner, 1),
    {
        let me = *self;
        let mut i: u8 = 1;
        while i <= BITLENGTH
            invariant
                1 <= i <= 9,
                me == *self,
                me == *old(self),
                store.wf(),
                update_others_from(store@, me.node_inner, i as int) == update_others_from(
                    old(store)@,
                    me.node_inner,
                    1,
                ),
            decreases 9 - i,
        {
            proof {
                lemma_two_pow_values();
            }
            let offset: u8 = power_of_two(i - 1) as u8;
            let prev = Node::decrease(me.node_inner, offset);
            let mut p = match self.find_predecessor(store, prev) {
                Ok(p) => p,
                Err(e) => {
                    return Err(e);
                },
            };
            let p_successor = match p.successor(store) {
                Ok(s) => s,
                Err(e) => {
                    return Err(e);
                },
            };
            if prev == p_successor.node_inner {
                p = p_successor;
            }
            match p.update_finger_table(store, me, i) {
                Ok(_) => {},
                Err(e) => {
                    return Err(e);
                },
            }
            i = i + 1;
        }
        Ok(())
    }

    /// Takes over from the successor the keys that now belong to this peer.
    pub fn transfer_keys(&mut self, store: &mut NodeStore) -> (r: Result<Vec<String>, ChordError>)
        requires
            old(store).wf(),
        ensures
            *final(self) == *old(self),
            final(store).wf(),
            (final(store)@, result_lines(r)) == transfer_keys_result(
                old(store)@,
                old(self).node_inner,
            ),
    {
        let me = *self;
        let successor = match self.successor(store) {
            Ok(s) => s,
            Err(e) => {
                return Err(e);
            },
        };
        let mut take: Vec<bool> = Vec::new();
        let mut k: usize = 0;
        while k < 256
            invariant
                k <= 256,
                me == *self,
                me == *old(self),
                store.wf(),
                store@ == old(store)@,
                store@.successor(me.node_inner) == Some(successor.node_inner),
                take@.len() == k,
                first_failed_lookup(store@, me.node_inner, successor.node_inner, k as int) is None,
                forall|x: u8|
                    (x as int) < k ==> (#[trigger] take@[x as int]) == keys_to_take(
                        store@,
                        me.node_inner,
                        successor.node_inner,
                    ).contains(x),
            decreases 256 - k,
        {
            let key: u8 = k as u8;
            let mut mine = false;
            if store.has_key(successor, key) {
                let owner = match self.find_successor(store, key) {
                    Ok(o) => o,
                    Err(e) => {
                        proof {
                            assert(first_failed_lookup(
                                store@,
                                me.node_inner,
                                successor.node_inner,
                                k + 1,
                            ) == Some(e));
                            lemma_first_failure_stays(
                                store@,
                                me.node_inner,
                                successor.node_inner,
                                k + 1,
                                256,
                            );
                        }
                        return Err(e);
                    },
                };
                mine = owner.node_inner == me.node_inner;
            }
            take.push(mine);
            k = k + 1;
        }
        proof {
            assert(marked(take@) =~= keys_to_take(store@, me.node_inner, successor.node_inner));
        }
        let records = migrate(store, successor, me, &take);
        Ok(records)
    }

    /// Has this peer take `node` as its finger `index` where `node` lies in
    /// `[self, finger index of self)`, and then its predecessors in turn,
    /// until one of them keeps its finger.
    pub fn update_finger_table(&mut self, store: &mut NodeStore, node: Node, index: u8) -> (r:
        Result<(), ChordError>)
        requires
            old(store).wf(),
            1 <= index <= BITLENGTH,
        ensures
            *final(self) == *old(self),
            final(store).wf(),
            (final(store)@, r) == update_finger_table_chain(
                old(store)@,
                old(self).node_inner,
                node.node_inner,
                index as int,
            ),
    {
        let s_id = node.node_inner;
        let mut p: Node = *self;
        loop
            invariant
                *self == *old(self),
                store.wf(),
                1 <= index <= 8,
                s_id == node.node_inner,
                update_finger_table_chain(store@, p.node_inner, s_id, index as int)
                    == update_finger_table_chain(
                    old(store)@,
                    old(self).node_inner,
                    s_id,
                    index as int,
                ),
            decreases 256 - fingers_matching(store@, index as int, Some(s_id), 256),
        {
            let n_id = p.node_inner;
            if s_id == n_id {
                return Ok(());
            }
            let f = match store.finger(p, index) {
                Some(f) => f,
                None => {
                    return Err(ChordError::MissingSuccessor { node: n_id });
                },
            };
            if !self.e_is_between_ring(s_id, n_id, f.node_inner) {
                return Ok(());
            }
            proof {
                lemma_patch_changes_count(store@, n_id, index as int, Some(s_id), Some(s_id), 256);
            }
            store.set_finger(p, index, node);
            match store.predecessor_of(p) {
                Some(pre) => {
                    p = pre;
                },
                None => {
                    return Err(ChordError::MissingPredecessor { node: n_id });
                },
            }
        }
    }
}

} // verus!
