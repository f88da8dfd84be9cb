//! A peer that joins a sound ring and leaves it again leaves every lookup
//! as it was.

use vstd::prelude::*;
use crate::frame::lemma_with_state;
use crate::join::join_result;
use crate::join_proof::{join_successor, lemma_join_keeps_ring, owned_by};
use crate::leave::leave_result;
use crate::leave_proof::{
    leave_moved, leave_patched, leaving, lemma_leave_links, lemma_leave_of_one,
    lemma_leave_round_state, lemma_leave_steps,
};
use crate::lookup::find_result;
use crate::model::{NodeState, RingView};
use crate::ring::{
    is_successor_of, lemma_interval_owner, lemma_lookup_finds_owner, lemma_successor_unique,
    lemma_walk_stays, ring_ok, walk_closed,
};
use crate::ring_math::{right_closed, ring_add, ring_dist};
use crate::routing::{find_predecessor_walk, find_successor_walk};

verus! {

/// Where `s` is the first of `rest` after a peer `d` outside `rest`, and
/// `id` lies in `(d, s]`, `s` is the successor of `id`.
pub proof fn lemma_interval_owner_outside(rest: Set<u8>, d: u8, s: u8, id: u8)
    requires
        !rest.contains(d),
        is_successor_of(rest, ring_add(d, 1), s),
        right_closed(id, d, s),
    ensures
        is_successor_of(rest, id, s),
{
    assert forall|x: u8| #[trigger] rest.contains(x) implies ring_dist(id, s) <= ring_dist(id, x) by {
        assert(ring_dist(ring_add(d, 1), s) <= ring_dist(ring_add(d, 1), x));
    }
}

/// While a peer is leaving, and after it has left, the lookup of any
/// identifier from any other member finds the successor of the identifier
/// among the other members, whether or not it passes the leaving peer.
pub proof fn lemma_lookup_while_leaving(rv: RingView, rest: Set<u8>, d: u8, s: u8, n: u8, id: u8)
    requires
        leaving(rv, rest, d, s),
        rest.contains(n),
    ensures
        find_successor_walk(rv, n, id) is Ok,
        is_successor_of(rest, id, find_successor_walk(rv, n, id)->Ok_0),
{
    let all = rest.insert(d);
    assert(walk_closed(rv, all)) by {
        assert forall|p: u8| all.contains(p) implies (#[trigger] rv.successor(p)) is Some by {
            assert(rv.finger(p, 1) is Some);
        }
    }
    lemma_walk_stays(rv, all, n, id);
    let p = find_predecessor_walk(rv, n, id)->Ok_0;
    if p == d {
        lemma_interval_owner_outside(rest, d, s, id);
    } else {
        assert(rest.contains(p));
        assert(rv.successor(p) is Some);
        lemma_interval_owner(rest, p, rv.successor(p)->0, id);
    }
}

/// On a sound ring, let a peer outside the ring join through any member
/// and then leave. Every find from any member then answers as it would have
/// answered before the join.
pub proof fn lemma_join_then_leave(rv: RingView, n: u8, b: u8, reader: u8, key: u8)
    requires
        ring_ok(rv),
        !rv.is_member(n),
        rv.is_member(b),
        rv.is_member(reader),
    ensures
        join_result(rv, n, Some(b)).1 is Ok,
        leave_result(join_result(rv, n, Some(b)).0, n).1 is Ok,
        leave_result(join_result(rv, n, Some(b)).0, n).0.members() == rv.members(),
        find_result(leave_result(join_result(rv, n, Some(b)).0, n).0, reader, key).1
            == find_result(rv, reader, key).1,
{
    let ms = rv.members();
    let all = ms.insert(n);
    lemma_join_keeps_ring(rv, n, b);
    let s = join_successor(rv, n, b);
    let joined = join_result(rv, n, Some(b)).0;
    assert(joined.is_member(n) && joined.is_member(b)) by {
        assert(all.contains(n) && all.contains(b));
    }
    assert(b != n);
    lemma_leave_links(joined, all, n, b);
    lemma_leave_steps(joined, n, b);
    lemma_leave_of_one(joined, n, b);
    assert(joined.successor(n) == Some(s)) by {
        assert(all.contains(n));
        assert(joined.successor(n) is Some);
        assert(is_successor_of(all, ring_add(n, 1), joined.successor(n)->0));
        assert(is_successor_of(all, ring_add(n, 1), s)) by {
            assert forall|x: u8| #[trigger] all.contains(x) implies ring_dist(ring_add(n, 1), s)
                <= ring_dist(ring_add(n, 1), x) by {
                if x != n {
                    assert(ms.contains(x));
                }
            }
        }
        lemma_successor_unique(all, ring_add(n, 1), joined.successor(n)->0, s);
    }
    let rest = all.remove(n);
    assert(rest =~= ms);
    let patched = leave_patched(joined, n);
    let left = leave_result(joined, n).0;
    lemma_leave_round_state(patched, leave_moved(joined, n), rest, n, s, joined.predecessor(n)->0, 9);
    lemma_with_state(patched, n, NodeState::Detached);
    assert(leaving(left, rest, n, s)) by {
        assert forall|p: u8, j: int| 1 <= j <= 8 implies #[trigger] left.finger(p, j)
            == patched.finger(p, j) by {}
        assert(left.finger(n, 1) == patched.finger(n, 1));
        assert(left.predecessor(n) == patched.predecessor(n));
        assert forall|p: u8, j: int| rest.insert(n).contains(p) && 1 <= j <= 8 implies (
        #[trigger] left.finger(p, j)) is Some && rest.insert(n).contains(left.finger(p, j)->0) by {
            assert(left.finger(p, j) == patched.finger(p, j));
        }
    }
    lemma_lookup_while_leaving(left, rest, n, s, reader, key);
    lemma_lookup_finds_owner(rv, ms, reader, key);
    let owner = find_successor_walk(rv, reader, key)->Ok_0;
    lemma_successor_unique(ms, key, owner, find_successor_walk(left, reader, key)->Ok_0);
    assert(owner != n);
    assert(left.keys(owner) =~= rv.keys(owner)) by {
        if owner == s {
            assert(left.keys(s) == joined.keys(s).union_prefer_right(joined.keys(n)));
            assert(joined.keys(n) == rv.keys(s).restrict(owned_by(all, n)));
            assert(joined.keys(s) == rv.keys(s).remove_keys(owned_by(all, n)));
        } else {
            assert(left.keys(owner) == joined.keys(owner));
            assert(joined.keys(owner) == rv.keys(owner));
        }
    }
}

} // verus!
