//! Leaving: a peer links its two neighbours to each other, hands its keys
//! to its successor, and has the peers that point at it point at the
//! successor instead.

use vstd::prelude::*;
use crate::join::{finger_origin, fingers_matching, lemma_patch_changes_count, result_lines};
use crate::keys::{marked, migrate, migration_lines, move_keys};
use crate::leave_proof::{
    leave_repairs_all, left_ring, lemma_leave_keeps_exact, lemma_leave_on_ring,
};
use crate::ring::{ring_exact, ring_ok};
use crate::model::{ChordError, NodeState, RingView};
use crate::node::{Node, NodeStore};
use crate::ring_math::{lemma_two_pow_values, power_of_two, BITLENGTH};
use crate::routing::find_predecessor_walk;

verus! {

/// What `update_finger_table_leave` makes of a store: the peer `p` takes
/// `s` as its finger `i` where that finger points at the leaving peer, and
/// then its predecessor does the same, until one peer keeps its finger. Where
/// the leaving peer is its own successor there is nothing to do.
pub open spec fn update_finger_table_leave_chain(
    rv: RingView,
    p: u8,
    s: u8,
    i: int,
    leaving: u8,
) -> (RingView, Result<(), ChordError>)
    decreases fingers_matching(rv, i, Some(leaving), 256),
    when rv.wf() && 1 <= i <= 8
{
    if s == leaving {
        (rv, Ok(()))
    } else {
        match rv.finger(p, i) {
            None => (rv, Err(ChordError::MissingSuccessor { node: p })),
            Some(f) => if f == leaving {
                let patched = rv.with_finger(p, i, Some(s));
                match patched.predecessor(p) {
                    None => (patched, Err(ChordError::MissingPredecessor { node: p })),
                    Some(q) => {
                        proof {
                            lemma_patch_changes_count(rv, p, i, Some(s), Some(leaving), 256);
                        }
                        update_finger_table_leave_chain(patched, q, s, i, leaving)
                    },
                }
            } else {
                (rv, Ok(()))
            },
        }
    }
}

/// What `update_others_leave` makes of a store from finger `i` on: for each
/// finger, the lookup from the leaving peer `d` of the identifier `2^(i-1)`
/// before `d` ends at a peer; from that peer the peers give up `d` as their
/// finger `i` for the successor of `d`, as `update_finger_table_leave_chain`
/// says.
pub open spec fn update_others_leave_from(rv: RingView, d: u8, i: int) -> (
    RingView,
    Result<(), ChordError>,
)
    decreases 9 - i,
{
    if i > 8 || i < 1 {
        (rv, Ok(()))
    } else {
        match find_predecessor_walk(rv, d, finger_origin(d, i)) {
            Err(e) => (rv, Err(e)),
            Ok(p) => match rv.successor(d) {
                None => (rv, Err(ChordError::MissingSuccessor { node: d })),
                Some(s) => {
                    let (patched, r) = update_finger_table_leave_chain(rv, p, s, i, d);
                    match r {
                        Err(e) => (patched, Err(e)),
                        Ok(_) => update_others_leave_from(patched, d, i + 1),
                    }
                },
            },
        }
    }
}

/// What `transfer_keys_leave` makes of a store and answers: every key of
/// `d` moves to the successor of `d`, with one record each.
pub open spec fn transfer_keys_leave_result(rv: RingView, d: u8) -> (
    RingView,
    Result<Seq<Seq<char>>, ChordError>,
) {
    match rv.successor(d) {
        None => (rv, Err(ChordError::MissingSuccessor { node: d })),
        Some(s) => (
            move_keys(rv, d, s, rv.keys(d).dom()),
            Ok(migration_lines(rv.keys(d).dom(), d, s, 256)),
        ),
    }
}

/// What `leave` makes of a store and answers. The predecessor and the
/// successor of `d` are linked to each other, the keys of `d` move to the
/// successor, the tables of the others are patched, and `d` is detached. A
/// peer without predecessor or successor does not leave.
pub open spec fn leave_result(rv: RingView, d: u8) -> (
    RingView,
    Result<Seq<Seq<char>>, ChordError>,
) {
    match rv.predecessor(d) {
        None => (rv, Err(ChordError::MissingPredecessor { node: d })),
        Some(p) => match rv.successor(d) {
            None => (rv, Err(ChordError::MissingSuccessor { node: d })),
            Some(s) => {
                let linked = rv.with_predecessor(s, Some(p)).with_finger(p, 1, Some(s));
                let (moved, r1) = transfer_keys_leave_result(linked, d);
                match r1 {
                    Err(e) => (moved, Err(e)),
                    Ok(lines) => {
                        let (patched, r2) = update_others_leave_from(moved, d, 1);
                        match r2 {
                            Err(e) => (patched, Err(e)),
                            Ok(_) => (patched.with_state(d, NodeState::Detached), Ok(lines)),
                        }
                    },
                }
            },
        },
    }
}

impl Node {
    /// Has this peer give up `leav_id` as its finger `index` for `node`,
    /// and then its predecessors in turn, until one of them has another
    /// finger there.
    pub fn update_finger_table_leave(
        &mut self,
        store: &mut NodeStore,
        node: Node,
        index: u8,
        leav_id: u8,
    ) -> (r: Result<(), ChordError>)
        requires
            old(store).wf(),
            1 <= index <= BITLENGTH,
        ensures
            *final(self) == *old(self),
            final(store).wf(),
            (final(store)@, r) == update_finger_table_leave_chain(
                old(store)@,
                old(self).node_inner,
                node.node_inner,
                index as int,
                leav_id,
            ),
    {
        let s_id = node.node_inner;
        if s_id == leav_id {
            return Ok(());
        }
        let mut p: Node = *self;
        loop
            invariant
                *self == *old(self),
                store.wf(),
                1 <= index <= 8,
                s_id == node.node_inner,
                s_id != leav_id,
                update_finger_table_leave_chain(store@, p.node_inner, s_id, index as int, leav_id)
                    == update_finger_table_leave_chain(
                    old(store)@,
                    old(self).node_inner,
                    s_id,
                    index as int,
                    leav_id,
                ),
            decreases fingers_matching(store@, index as int, Some(leav_id), 256),
        {
            let n_id = p.node_inner;
            let f = match store.finger(p, index) {
                Some(f) => f,
                None => {
                    return Err(ChordError::MissingSuccessor { node: n_id });
                },
            };
            if f.node_inner != leav_id {
                return Ok(());
            }
            proof {
                lemma_patch_changes_count(
                    store@,
                    n_id,
                    index as int,
                    Some(s_id),
                    Some(leav_id),
                    256,
                );
            }
            store.set_finger(p, index, node);
            match store.predecessor_of(p) {
                Some(pre) => {
                    p = pre;
                },
                None => {
                    return Err(ChordError::MissingPredecessor { node: n_id });
                },
            }
        }
    }

    /// Takes this peer out of the ring. Answers with the records of the
    /// keys that moved to the successor.
    pub fn leave(&mut self, store: &mut NodeStore) -> (r: Result<Vec<String>, ChordError>)
        requires
            old(store).wf(),
        ensures
            *final(self) == *old(self),
            final(store).wf(),
            (final(store)@, result_lines(r)) == leave_result(old(store)@, old(self).node_inner),
            ring_ok(old(store)@) && old(store)@.is_member(old(self).node_inner) ==> r is Ok
                && left_ring(final(store)@, old(store)@, old(self).node_inner),
            ring_exact(old(store)@) && old(store)@.is_member(old(self).node_inner) ==> (ring_exact(
                final(store)@,
            ) <==> leave_repairs_all(old(store)@, old(self).node_inner)),
    {
        proof {
            let rv = old(store)@;
            let d = old(self).node_inner;
            if ring_ok(rv) && rv.is_member(d) {
                lemma_leave_on_ring(rv, d);
                if ring_exact(rv) {
                    lemma_leave_keeps_exact(rv, d);
                }
            }
        }
        let me = *self;
        let predecessor = match self.predecessor(store) {
            Some(p) => p,
            None => {
                return Err(ChordError::MissingPredecessor { node: me.node_inner });
            },
        };
        let successor = match self.successor(store) {
            Ok(s) => s,
            Err(e) => {
                return Err(e);
            },
        };
        store.set_predecessor(successor, Some(predecessor));
        store.set_finger(predecessor, 1, successor);
        let records = match self.transfer_keys_leave(store) {
            Ok(records) => records,
            Err(e) => {
                return Err(e);
            },
        };
        match self.update_others_leave(store) {
            Ok(_) => {},
            Err(e) => {
                return Err(e);
            },
        }
        store.set_state(me, NodeState::Detached);
        Ok(records)
    }

    /// Has every peer that points at this peer point at its successor.
    pub fn update_others_leave(&self, store: &mut NodeStore) -> (r: Result<(), ChordError>)
        requires
            old(store).wf(),
        ensures
            final(store).wf(),
            (final(store)@, r) == update_others_leave_from(old(store)@, self.node_inner, 1),
    {
        let leave_id = self.node_inner;
        let mut i: u8 = 1;
        while i <= BITLENGTH
            invariant
                1 <= i <= 9,
                leave_id == self.node_inner,
                store.wf(),
                update_others_leave_from(store@, leave_id, i as int) == update_others_leave_from(
                    old(store)@,
                    leave_id,
                    1,
                ),
            decreases 9 - i,
        {
            proof {
                lemma_two_pow_values();
            }
            let offset: u8 = power_of_two(i - 1) as u8;
            let prev = Node::decrease(leave_id, offset);
            let mut p = match self.find_predecessor(store, prev) {
                Ok(p) => p,
                Err(e) => {
                    return Err(e);
                },
            };
            let successor = match self.successor(store) {
                Ok(s) => s,
                Err(e) => {
                    return Err(e);
                },
            };
            match p.update_finger_table_leave(store, successor, i, leave_id) {
                Ok(_) => {},
                Err(e) => {
                    return Err(e);
                },
            }
            i = i + 1;
        }
        Ok(())
    }

    /// Hands every key of this peer to its successor.
    pub fn transfer_keys_leave(&mut self, store: &mut NodeStore) -> (r: Result<
        Vec<String>,
        ChordError,
    >)
        requires
            old(store).wf(),
        ensures
            *final(self) == *old(self),
            final(store).wf(),
            (final(store)@, result_lines(r)) == transfer_keys_leave_result(
                old(store)@,
                old(self).node_inner,
            ),
    {
        let me = *self;
        let successor = match self.successor(store) {
            Ok(s) => s,
            Err(e) => {
                return Err(e);
            },
        };
        let mut take: Vec<bool> = Vec::new();
        let mut k: usize = 0;
        while k < 256
            invariant
                k <= 256,
                store.wf(),
                store@ == old(store)@,
                take@.len() == k,
                forall|x: u8|
                    (x as int) < k ==> (#[trigger] take@[x as int]) == store@.keys(
                        me.node_inner,
                    ).contains_key(x),
            decreases 256 - k,
        {
            take.push(store.has_key(me, k as u8));
            k = k + 1;
        }
        proof {
            assert(marked(take@) =~= store@.keys(me.node_inner).dom());
        }
        let records = migrate(store, me, successor, &take);
        Ok(records)
    }
}

} // verus!
