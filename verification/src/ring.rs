//! What it means for a store to hold a sound ring, and why lookups on a
//! sound ring find the owner of every identifier.

use vstd::prelude::*;
use crate::frame::same_all_fingers;
use crate::model::RingView;
use crate::ring_math::{in_open_interval, right_closed, ring_add, ring_dist, spec_finger_start};
use crate::routing::{
    closest_preceding, closest_preceding_from, find_predecessor_walk, find_successor_walk,
    lemma_closest_preceding_from, lemma_walk_moves_on, remaining,
};

verus! {

/// `m` is the first of `members` at or after `k` in ring order: the
/// successor of `k`.
pub open spec fn is_successor_of(members: Set<u8>, k: u8, m: u8) -> bool {
    &&& members.contains(m)
    &&& forall|x: u8| #[trigger] members.contains(x) ==> ring_dist(k, m) <= ring_dist(k, x)
}

/// Every finger of a peer of `ms` points at a peer of `ms`.
pub open spec fn fingers_inside(rv: RingView, ms: Set<u8>) -> bool {
    forall|p: u8, i: int|
        ms.contains(p) && 1 <= i <= 8 ==> (#[trigger] rv.finger(p, i)) is Some && ms.contains(
            rv.finger(p, i)->0,
        )
}

/// The successor of each peer of `ms` is the next peer of `ms` after it in
/// ring order.
pub open spec fn successors_exact(rv: RingView, ms: Set<u8>) -> bool {
    forall|p: u8|
        ms.contains(p) ==> (#[trigger] rv.successor(p)) is Some && is_successor_of(
            ms,
            ring_add(p, 1),
            rv.successor(p)->0,
        )
}

/// The predecessor of each peer of `ms` is the peer of `ms` whose successor
/// it is.
pub open spec fn predecessors_exact(rv: RingView, ms: Set<u8>) -> bool {
    forall|p: u8|
        ms.contains(p) ==> (#[trigger] rv.predecessor(p)) is Some && ms.contains(
            rv.predecessor(p)->0,
        ) && is_successor_of(ms, ring_add(rv.predecessor(p)->0, 1), p)
}

/// Every key that any peer stores is stored by the successor of the key
/// among `ms`.
pub open spec fn keys_placed(rv: RingView, ms: Set<u8>) -> bool {
    forall|p: u8, k: u8| #[trigger] rv.keys(p).contains_key(k) ==> is_successor_of(ms, k, p)
}

/// Finger `i` of each peer of `ms` points at the successor of the finger's
/// start among `ms`.
pub open spec fn fingers_exact(rv: RingView, ms: Set<u8>) -> bool {
    forall|p: u8, i: int|
        ms.contains(p) && 1 <= i <= 8 ==> (#[trigger] rv.finger(p, i)) is Some
            && is_successor_of(ms, spec_finger_start(p, i), rv.finger(p, i)->0)
}

/// The pointers by which lookups go are sound for the peers `ms`: fingers
/// stay among them, successors and predecessors are exact.
pub open spec fn links_ok(rv: RingView, ms: Set<u8>) -> bool {
    &&& rv.wf()
    &&& fingers_inside(rv, ms)
    &&& successors_exact(rv, ms)
    &&& predecessors_exact(rv, ms)
}

/// A sound ring: the pointers of the members are sound, and every key is
/// with its owner.
pub open spec fn ring_ok(rv: RingView) -> bool {
    &&& links_ok(rv, rv.members())
    &&& keys_placed(rv, rv.members())
}

/// A sound ring in which every finger is exact.
pub open spec fn ring_exact(rv: RingView) -> bool {
    &&& ring_ok(rv)
    &&& fingers_exact(rv, rv.members())
}

/// No identifier has two successors.
pub proof fn lemma_successor_unique(members: Set<u8>, k: u8, m1: u8, m2: u8)
    requires
        is_successor_of(members, k, m1),
        is_successor_of(members, k, m2),
    ensures
        m1 == m2,
{
}

/// The peers `among` all have a successor, and their fingers stay among
/// them.
pub open spec fn walk_closed(rv: RingView, among: Set<u8>) -> bool {
    &&& forall|p: u8| among.contains(p) ==> (#[trigger] rv.successor(p)) is Some
    &&& forall|p: u8, i: int|
        among.contains(p) && 1 <= i <= 8 && (#[trigger] rv.finger(p, i)) is Some
            ==> among.contains(rv.finger(p, i)->0)
}

/// Among peers that all have a successor and whose fingers stay among
/// them, a lookup never fails and never leaves them; it ends at a peer `p`
/// with `id` in `(p, successor(p)]`, which is the start or lies strictly
/// between the start and `id`.
pub proof fn lemma_walk_stays(rv: RingView, among: Set<u8>, n: u8, id: u8)
    requires
        walk_closed(rv, among),
        among.contains(n),
    ensures
        find_predecessor_walk(rv, n, id) is Ok,
        among.contains(find_predecessor_walk(rv, n, id)->Ok_0),
        rv.successor(find_predecessor_walk(rv, n, id)->Ok_0) is Some,
        right_closed(
            id,
            find_predecessor_walk(rv, n, id)->Ok_0,
            rv.successor(find_predecessor_walk(rv, n, id)->Ok_0)->0,
        ),
        find_predecessor_walk(rv, n, id)->Ok_0 == n || in_open_interval(
            find_predecessor_walk(rv, n, id)->Ok_0,
            n,
            id,
        ),
    decreases remaining(n, id),
{
    let s = rv.successor(n)->0;
    if !right_closed(id, n, s) {
        lemma_walk_moves_on(rv, n, id);
        lemma_closest_preceding_from(rv, n, id, 8);
        let c = closest_preceding(rv, n, id);
        lemma_walk_stays(rv, among, c, id);
    }
}

/// The fingers of the peers `among` are the same in two stores.
pub open spec fn same_fingers(rv1: RingView, rv2: RingView, among: Set<u8>) -> bool {
    forall|p: u8, i: int|
        among.contains(p) && 1 <= i <= 8 ==> #[trigger] rv1.finger(p, i) == rv2.finger(p, i)
}

/// A peer hands a lookup to the same peer in two stores in which it has
/// the same fingers.
pub proof fn lemma_same_fingers_same_scan(rv1: RingView, rv2: RingView, n: u8, id: u8, i: int)
    requires
        forall|j: int| 1 <= j <= 8 ==> #[trigger] rv1.finger(n, j) == rv2.finger(n, j),
        i <= 8,
    ensures
        closest_preceding_from(rv1, n, id, i) == closest_preceding_from(rv2, n, id, i),
    decreases i,
{
    if i >= 1 {
        assert(rv1.finger(n, i) == rv2.finger(n, i));
        lemma_same_fingers_same_scan(rv1, rv2, n, id, i - 1);
    }
}

/// A lookup that stays among peers whose fingers are the same in two
/// stores ends at the same peer in both.
pub proof fn lemma_same_fingers_same_walk(
    rv1: RingView,
    rv2: RingView,
    among: Set<u8>,
    n: u8,
    id: u8,
)
    requires
        walk_closed(rv1, among),
        same_fingers(rv1, rv2, among),
        among.contains(n),
    ensures
        find_predecessor_walk(rv2, n, id) == find_predecessor_walk(rv1, n, id),
        find_successor_walk(rv2, n, id) == find_successor_walk(rv1, n, id),
    decreases remaining(n, id),
{
    assert(rv1.finger(n, 1) == rv2.finger(n, 1));
    let s = rv1.successor(n)->0;
    assert forall|j: int| 1 <= j <= 8 implies #[trigger] rv1.finger(n, j) == rv2.finger(n, j) by {}
    if !right_closed(id, n, s) {
        lemma_walk_moves_on(rv1, n, id);
        lemma_closest_preceding_from(rv1, n, id, 8);
        lemma_same_fingers_same_scan(rv1, rv2, n, id, 8);
        let c = closest_preceding(rv1, n, id);
        lemma_same_fingers_same_walk(rv1, rv2, among, c, id);
    }
    lemma_walk_stays(rv1, among, n, id);
    let p = find_predecessor_walk(rv1, n, id)->Ok_0;
    assert(rv1.finger(p, 1) == rv2.finger(p, 1));
}

/// On sound pointers the peers are closed under lookups.
pub proof fn lemma_members_closed(rv: RingView, ms: Set<u8>)
    requires
        links_ok(rv, ms),
    ensures
        walk_closed(rv, ms),
{
}

/// Where `s` is the next member after the member `p`, and `id` lies in
/// `(p, s]`, `s` is the successor of `id`.
pub proof fn lemma_interval_owner(members: Set<u8>, p: u8, s: u8, id: u8)
    requires
        members.contains(p),
        is_successor_of(members, ring_add(p, 1), s),
        right_closed(id, p, s),
    ensures
        is_successor_of(members, id, s),
{
    assert forall|x: u8| #[trigger] members.contains(x) implies ring_dist(id, s) <= ring_dist(
        id,
        x,
    ) by {
        assert(ring_dist(ring_add(p, 1), s) <= ring_dist(ring_add(p, 1), x));
        assert(ring_dist(ring_add(p, 1), s) <= ring_dist(ring_add(p, 1), p));
    }
}

/// On sound pointers, the lookup of any identifier from any of the peers
/// ends at a peer whose successor is the successor of the identifier.
pub proof fn lemma_lookup_finds_owner(rv: RingView, ms: Set<u8>, n: u8, id: u8)
    requires
        links_ok(rv, ms),
        ms.contains(n),
    ensures
        find_predecessor_walk(rv, n, id) is Ok,
        ms.contains(find_predecessor_walk(rv, n, id)->Ok_0),
        right_closed(
            id,
            find_predecessor_walk(rv, n, id)->Ok_0,
            rv.successor(find_predecessor_walk(rv, n, id)->Ok_0)->0,
        ),
        find_successor_walk(rv, n, id) is Ok,
        find_successor_walk(rv, n, id)->Ok_0 == rv.successor(
            find_predecessor_walk(rv, n, id)->Ok_0,
        )->0,
        is_successor_of(ms, id, find_successor_walk(rv, n, id)->Ok_0),
{
    lemma_members_closed(rv, ms);
    lemma_walk_stays(rv, ms, n, id);
    let p = find_predecessor_walk(rv, n, id)->Ok_0;
    lemma_interval_owner(ms, p, rv.successor(p)->0, id);
}

/// Sound pointers are still sound in a store with the same fingers and
/// predecessors.
pub proof fn lemma_links_carry_over(rv1: RingView, rv2: RingView, ms: Set<u8>)
    requires
        links_ok(rv1, ms),
        rv2.wf(),
        same_all_fingers(rv2, rv1),
        forall|p: u8| #[trigger] rv2.predecessor(p) == rv1.predecessor(p),
    ensures
        links_ok(rv2, ms),
        fingers_exact(rv1, ms) ==> fingers_exact(rv2, ms),
        forall|n: u8, id: u8|
            ms.contains(n) ==> #[trigger] find_successor_walk(rv2, n, id) == find_successor_walk(
                rv1,
                n,
                id,
            ),
{
    assert forall|p: u8, i: int| ms.contains(p) && 1 <= i <= 8 implies (#[trigger] rv2.finger(
        p,
        i,
    )) is Some && ms.contains(rv2.finger(p, i)->0) by {
        assert(rv2.finger(p, i) == rv1.finger(p, i));
    }
    assert forall|p: u8| ms.contains(p) implies (#[trigger] rv2.successor(p)) is Some
        && is_successor_of(ms, ring_add(p, 1), rv2.successor(p)->0) by {
        assert(rv2.finger(p, 1) == rv1.finger(p, 1));
        assert(rv1.successor(p) is Some);
    }
    assert forall|p: u8| ms.contains(p) implies (#[trigger] rv2.predecessor(p)) is Some
        && ms.contains(rv2.predecessor(p)->0) && is_successor_of(
        ms,
        ring_add(rv2.predecessor(p)->0, 1),
        p,
    ) by {
        assert(rv2.predecessor(p) == rv1.predecessor(p));
    }
    if fingers_exact(rv1, ms) {
        assert forall|p: u8, i: int| ms.contains(p) && 1 <= i <= 8 implies (#[trigger] rv2.finger(
            p,
            i,
        )) is Some && is_successor_of(ms, spec_finger_start(p, i), rv2.finger(p, i)->0) by {
            assert(rv2.finger(p, i) == rv1.finger(p, i));
        }
    }
    lemma_members_closed(rv1, ms);
    assert forall|n: u8, id: u8| ms.contains(n) implies #[trigger] find_successor_walk(rv2, n, id)
        == find_successor_walk(rv1, n, id) by {
        assert forall|p: u8, i: int| ms.contains(p) && 1 <= i <= 8 implies #[trigger] rv1.finger(
            p,
            i,
        ) == rv2.finger(p, i) by {
            assert(rv2.finger(p, i) == rv1.finger(p, i));
        }
        lemma_same_fingers_same_walk(rv1, rv2, ms, n, id);
    }
}

/// On a sound ring no key is stored by two peers.
pub proof fn lemma_key_held_once(rv: RingView, p1: u8, p2: u8, key: u8)
    requires
        ring_ok(rv),
        rv.keys(p1).contains_key(key),
        rv.keys(p2).contains_key(key),
    ensures
        p1 == p2,
        is_successor_of(rv.members(), key, p1),
{
    lemma_successor_unique(rv.members(), key, p1, p2);
}

} // verus!
