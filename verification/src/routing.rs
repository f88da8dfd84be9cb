//! Lookup: from any peer, the walk along finger tables that ends at the
//! predecessor of an identifier, whose successor owns it.

use vstd::prelude::*;
use crate::model::{ChordError, RingView};
use crate::node::{id_of, Node, NodeStore};
use crate::ring::{is_successor_of, lemma_lookup_finds_owner, links_ok};
use crate::ring_math::{
    in_open_interval, left_closed, right_closed, ring_dist, spec_decrease, BITLENGTH, RING_SIZE,
};

verus! {

/// The peer that the highest finger of `n` among fingers `1 ..= i` points at
/// strictly inside `(n, id)`; `n` itself where there is none.
pub open spec fn closest_preceding_from(rv: RingView, n: u8, id: u8, i: int) -> u8
    decreases i,
{
    if i < 1 {
        n
    } else {
        match rv.finger(n, i) {
            Some(f) => if in_open_interval(f, n, id) {
                f
            } else {
                closest_preceding_from(rv, n, id, i - 1)
            },
            None => closest_preceding_from(rv, n, id, i - 1),
        }
    }
}

/// The peer that `n` hands a lookup of `id` to.
pub open spec fn closest_preceding(rv: RingView, n: u8, id: u8) -> u8 {
    closest_preceding_from(rv, n, id, 8)
}

/// How far a walk at `n` still is from `id`: the clockwise distance, a whole
/// turn where the two are equal.
pub open spec fn remaining(n: u8, id: u8) -> int {
    if n == id {
        256
    } else {
        ring_dist(n, id)
    }
}

/// The scan of a finger table answers with the peer itself or with a peer
/// strictly inside `(n, id)`, and with the latter as soon as one finger
/// among those scanned points there.
pub proof fn lemma_closest_preceding_from(rv: RingView, n: u8, id: u8, i: int)
    ensures
        closest_preceding_from(rv, n, id, i) == n || in_open_interval(
            closest_preceding_from(rv, n, id, i),
            n,
            id,
        ),
        forall|j: int|
            1 <= j <= i && (#[trigger] rv.finger(n, j)) is Some && in_open_interval(
                rv.finger(n, j)->0,
                n,
                id,
            ) ==> in_open_interval(closest_preceding_from(rv, n, id, i), n, id),
        closest_preceding_from(rv, n, id, i) != n ==> exists|j: int|
            1 <= j <= i && #[trigger] rv.finger(n, j) == Some(
                closest_preceding_from(rv, n, id, i),
            ),
    decreases i,
{
    if i >= 1 {
        lemma_closest_preceding_from(rv, n, id, i - 1);
        let c = closest_preceding_from(rv, n, id, i);
        if c != n {
            if rv.finger(n, i) == Some(c) {
            } else {
                let j = choose|j: int|
                    1 <= j <= i - 1 && #[trigger] rv.finger(n, j) == Some(
                        closest_preceding_from(rv, n, id, i - 1),
                    );
                assert(rv.finger(n, j) == Some(c));
            }
        }
    }
}

/// Where `id` is not in `(n, s]` for the successor `s` of `n`, the successor
/// lies strictly inside `(n, id)`, so the lookup moves on, and closer to `id`.
pub proof fn lemma_walk_moves_on(rv: RingView, n: u8, id: u8)
    requires
        rv.successor(n) is Some,
        !right_closed(id, n, rv.successor(n)->0),
    ensures
        in_open_interval(closest_preceding(rv, n, id), n, id),
        remaining(closest_preceding(rv, n, id), id) < remaining(n, id),
{
    lemma_closest_preceding_from(rv, n, id, 8);
    assert(rv.finger(n, 1) is Some);
}

/// The peer at which a lookup of `id` that starts at `n` ends: the first
/// peer `p` on the way whose successor `s` has `id` in `(p, s]`. On the way the
/// lookup goes from each peer to its closest preceding peer; it fails at
/// a peer that has no successor.
pub open spec fn find_predecessor_walk(rv: RingView, n: u8, id: u8) -> Result<u8, ChordError>
    decreases remaining(n, id),
{
    match rv.successor(n) {
        None => Err(ChordError::MissingSuccessor { node: n }),
        Some(s) => if right_closed(id, n, s) {
            Ok(n)
        } else {
            proof {
                lemma_walk_moves_on(rv, n, id);
            }
            find_predecessor_walk(rv, closest_preceding(rv, n, id), id)
        },
    }
}

/// The successor of the peer at which the lookup of `id` from `n` ends.
pub open spec fn find_successor_walk(rv: RingView, n: u8, id: u8) -> Result<u8, ChordError> {
    match find_predecessor_walk(rv, n, id) {
        Ok(p) => match rv.successor(p) {
            Some(s) => Ok(s),
            None => Err(ChordError::MissingSuccessor { node: p }),
        },
        Err(e) => Err(e),
    }
}

/// The handle in a result, by its identifier.
pub open spec fn result_id(r: Result<Node, ChordError>) -> Result<u8, ChordError> {
    match r {
        Ok(n) => Ok(n.node_inner),
        Err(e) => Err(e),
    }
}

impl Node {
    /// The identifier `size` positions counter-clockwise from `value`.
    pub fn decrease(value: u8, size: u8) -> (r: u8)
        ensures
            r == spec_decrease(value, size),
    {
        if size <= value {
            value - size
        } else {
            let gap: u32 = (size - value) as u32;
            (RING_SIZE - gap) as u8
        }
    }

    /// Whether `id` lies strictly between `node1` and `node2` going
    /// clockwise. With `node1 == node2` every other identifier does.
    pub fn between(&self, id: u8, node1: u8, node2: u8) -> (r: bool)
        ensures
            r == in_open_interval(id, node1, node2),
    {
        if node1 == node2 {
            id != node1
        } else if node1 < node2 {
            node1 < id && id < node2
        } else {
            id > node1 || id < node2
        }
    }

    /// Whether `id` lies in `(node1, node2]`.
    pub fn is_between_ring_e(&self, id: u8, node1: u8, node2: u8) -> (r: bool)
        ensures
            r == right_closed(id, node1, node2),
    {
        if id == node2 {
            true
        } else {
            self.between(id, node1, node2)
        }
    }

    /// Whether `id` lies in `[node1, node2)`.
    pub fn e_is_between_ring(&self, id: u8, node1: u8, node2: u8) -> (r: bool)
        ensures
            r == left_closed(id, node1, node2),
    {
        if id == node1 {
            true
        } else {
            self.between(id, node1, node2)
        }
    }

    /// The successor of this peer; an error where it has none.
    pub fn successor(&self, store: &NodeStore) -> (r: Result<Node, ChordError>)
        requires
            store.wf(),
        ensures
            result_id(r) == (match store@.successor(self.node_inner) {
                Some(s) => Ok::<u8, ChordError>(s),
                None => Err::<u8, ChordError>(
                    (ChordError::MissingSuccessor { node: self.node_inner }),
                ),
            }),
    {
        match store.successor_of(*self) {
            Some(s) => Ok(s),
            None => Err(ChordError::MissingSuccessor { node: self.node_inner }),
        }
    }

    /// The predecessor of this peer.
    pub fn predecessor(&self, store: &NodeStore) -> (r: Option<Node>)
        requires
            store.wf(),
        ensures
            id_of(r) == store@.predecessor(self.node_inner),
    {
        store.predecessor_of(*self)
    }

    /// The peer that the highest finger of this peer points at strictly
    /// inside `(self, id)`; this peer where no finger does.
    pub fn closest_preceding_node(&self, store: &NodeStore, id: u8) -> (r: Result<
        Node,
        ChordError,
    >)
        requires
            store.wf(),
        ensures
            result_id(r) == Ok::<u8, ChordError>(closest_preceding(store@, self.node_inner, id)),
    {
        let mut i: u8 = BITLENGTH;
        while i >= 1
            invariant
                store.wf(),
                0 <= i <= 8,
                closest_preceding_from(store@, self.node_inner, id, i as int) == closest_preceding(
                    store@,
                    self.node_inner,
                    id,
                ),
            decreases i,
        {
            match store.finger(*self, i) {
                Some(f) => {
                    if self.between(f.node_inner, self.node_inner, id) {
                        return Ok(f);
                    }
                },
                None => {},
            }
            i = i - 1;
        }
        Ok(*self)
    }

    /// The peer at which the lookup of `id` from this peer ends.
    pub fn find_predecessor(&self, store: &NodeStore, id: u8) -> (r: Result<Node, ChordError>)
        requires
            store.wf(),
        ensures
            result_id(r) == find_predecessor_walk(store@, self.node_inner, id),
            links_ok(store@, store@.members()) && store@.is_member(self.node_inner) ==> r is Ok
                && store@.is_member(r->Ok_0.node_inner) && store@.successor(
                r->Ok_0.node_inner,
            ) is Some && is_successor_of(
                store@.members(),
                id,
                store@.successor(r->Ok_0.node_inner)->0,
            ),
    {
        proof {
            if links_ok(store@, store@.members()) && store@.is_member(self.node_inner) {
                lemma_lookup_finds_owner(store@, store@.members(), self.node_inner, id);
            }
        }
        let mut n: Node = *self;
        loop
            invariant
                store.wf(),
                find_predecessor_walk(store@, n.node_inner, id) == find_predecessor_walk(
                    store@,
                    self.node_inner,
                    id,
                ),
                links_ok(store@, store@.members()) && store@.is_member(self.node_inner) ==> ({
                    let p = find_predecessor_walk(store@, self.node_inner, id);
                    &&& p is Ok
                    &&& store@.is_member(p->Ok_0)
                    &&& store@.successor(p->Ok_0) is Some
                    &&& is_successor_of(store@.members(), id, store@.successor(p->Ok_0)->0)
                }),
            decreases remaining(n.node_inner, id),
        {
            let s = match n.successor(store) {
                Ok(s) => s,
                Err(e) => {
                    return Err(e);
                },
            };
            if self.is_between_ring_e(id, n.node_inner, s.node_inner) {
                return Ok(n);
            }
            proof {
                lemma_walk_moves_on(store@, n.node_inner, id);
            }
            n = match n.closest_preceding_node(store, id) {
                Ok(c) => c,
                Err(e) => {
                    return Err(e);
                },
            };
        }
    }

    /// The owner of `id` as the lookup from this peer finds it: the
    /// successor of the peer at which the lookup ends.
    pub fn find_successor(&self, store: &NodeStore, id: u8) -> (r: Result<Node, ChordError>)
        requires
            store.wf(),
        ensures
            result_id(r) == find_successor_walk(store@, self.node_inner, id),
            links_ok(store@, store@.members()) && store@.is_member(self.node_inner) ==> r is Ok
                && is_successor_of(store@.members(), id, r->Ok_0.node_inner),
    {
        proof {
            if links_ok(store@, store@.members()) && store@.is_member(self.node_inner) {
                lemma_lookup_finds_owner(store@, store@.members(), self.node_inner, id);
            }
        }
        let n = match self.find_predecessor(store, id) {
            Ok(n) => n,
            Err(e) => {
                return Err(e);
            },
        };
        n.successor(store)
    }
}

} // verus!
