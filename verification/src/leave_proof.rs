//! What a leave does to a sound ring: the neighbours of the leaving peer
//! are linked, its keys are with its successor, and the fingers that pointed
//! at it point at its successor, but for the fingers of the peers that lie
//! exactly `2^(i-1)` before it, which the repair can pass by.

use vstd::prelude::*;
use crate::frame::{
    lemma_with_finger, lemma_with_keys, lemma_with_predecessor, lemma_with_state,
    same_but_fingers, same_fingers_at,
};
use crate::keys::{migration_lines, move_keys};
use crate::leave::{leave_result, transfer_keys_leave_result};
use crate::model::NodeState;
use crate::ring::{
    fingers_exact, fingers_inside, keys_placed, lemma_successor_unique, links_ok, ring_exact,
    ring_ok,
};
use crate::join::{finger_origin, fingers_matching, lemma_patch_changes_count};
use crate::join_proof::{
    lemma_back_one_arith, lemma_lookup_ends_at_start, lemma_successor_is_farthest,
};
use crate::leave::{update_finger_table_leave_chain, update_others_leave_from};
use crate::model::{ChordError, RingView};
use crate::ring::{
    is_successor_of, lemma_walk_stays, predecessors_exact, successors_exact, walk_closed,
};
use crate::ring_math::{
    in_open_interval, lemma_finger_start_dist, lemma_next_dist, right_closed, ring_add,
    ring_dist,
    spec_finger_start, two_pow,
};
use crate::routing::find_predecessor_walk;

verus! {

/// A store in which `d` is leaving the peers `rest`: its neighbours are
/// linked to each other, so that successors and predecessors are exact among
/// `rest`; `d` still has its successor `s` and a predecessor, and the fingers
/// of all these peers stay among them.
pub open spec fn leaving(rv: RingView, rest: Set<u8>, d: u8, s: u8) -> bool {
    &&& rv.wf()
    &&& !rest.contains(d)
    &&& rest.contains(s)
    &&& is_successor_of(rest, ring_add(d, 1), s)
    &&& rv.successor(d) == Some(s)
    &&& rv.predecessor(d) is Some
    &&& rest.contains(rv.predecessor(d)->0)
    &&& forall|p: u8, j: int|
        rest.insert(d).contains(p) && 1 <= j <= 8 ==> (#[trigger] rv.finger(p, j)) is Some
            && rest.insert(d).contains(rv.finger(p, j)->0)
    &&& successors_exact(rv, rest)
    &&& predecessors_exact(rv, rest)
}

/// Finger `i` of each peer is in `after` what it is in `before`, or it is
/// `s` where it was `d` for one of the peers `rest` or for `d` itself.
pub open spec fn finger_kept_or_left(
    after: RingView,
    before: RingView,
    rest: Set<u8>,
    d: u8,
    s: u8,
    i: int,
) -> bool {
    forall|p: u8|
        #[trigger] after.finger(p, i) == before.finger(p, i) || (rest.insert(d).contains(p)
            && before.finger(p, i) == Some(d) && after.finger(p, i) == Some(s))
}

/// From any of the peers on, going back from peer to peer,
/// `update_finger_table_leave` succeeds and changes nothing but fingers `i`
/// that pointed at `d`, which it points at `s`.
pub proof fn lemma_leave_chain_frames(
    rv: RingView,
    base: RingView,
    rest: Set<u8>,
    d: u8,
    s: u8,
    i: int,
    cur: u8,
)
    requires
        1 <= i <= 8,
        rv.wf(),
        leaving(base, rest, d, s),
        same_but_fingers(rv, base),
        forall|j: int| 1 <= j <= 8 && j != i ==> same_fingers_at(rv, base, j),
        finger_kept_or_left(rv, base, rest, d, s, i),
        rest.insert(d).contains(cur),
    ensures
        update_finger_table_leave_chain(rv, cur, s, i, d).1 == Ok::<(), ChordError>(()),
        update_finger_table_leave_chain(rv, cur, s, i, d).0.wf(),
        same_but_fingers(update_finger_table_leave_chain(rv, cur, s, i, d).0, base),
        forall|j: int|
            1 <= j <= 8 && j != i ==> same_fingers_at(
                update_finger_table_leave_chain(rv, cur, s, i, d).0,
                base,
                j,
            ),
        finger_kept_or_left(update_finger_table_leave_chain(rv, cur, s, i, d).0, base, rest, d, s, i),
    decreases fingers_matching(rv, i, Some(d), 256),
{
    assert(s != d);
    assert(rv.finger(cur, i) == base.finger(cur, i) || rv.finger(cur, i) == Some(s));
    assert(base.finger(cur, i) is Some);
    let f = rv.finger(cur, i)->0;
    if f == d {
        let patched = rv.with_finger(cur, i, Some(s));
        lemma_with_finger(rv, cur, i, Some(s));
        lemma_patch_changes_count(rv, cur, i, Some(s), Some(d), 256);
        assert(rv.predecessor(cur) == base.predecessor(cur));
        assert(patched.predecessor(cur) == rv.predecessor(cur));
        assert(same_but_fingers(patched, base));
        assert forall|j: int| 1 <= j <= 8 && j != i implies same_fingers_at(patched, base, j) by {
            assert(same_fingers_at(rv, base, j));
            assert forall|p: u8| #[trigger] patched.finger(p, j) == base.finger(p, j) by {
                assert(rv.finger(p, j) == base.finger(p, j));
            }
        }
        assert(finger_kept_or_left(patched, base, rest, d, s, i)) by {
            assert forall|p: u8|
                #[trigger] patched.finger(p, i) == base.finger(p, i) || (rest.insert(d).contains(p)
                    && base.finger(p, i) == Some(d) && patched.finger(p, i) == Some(s)) by {
                assert(rv.finger(p, i) == base.finger(p, i) || (rest.insert(d).contains(p)
                    && base.finger(p, i) == Some(d) && rv.finger(p, i) == Some(s)));
            }
        }
        assert(base.predecessor(cur) is Some);
        let q = patched.predecessor(cur)->0;
        assert(rest.contains(q));
        lemma_leave_chain_frames(patched, base, rest, d, s, i, q);
    }
}

/// Finger `i` of every peer of `who` is exact among `ms`.
pub open spec fn finger_exact_for(rv: RingView, who: Set<u8>, ms: Set<u8>, i: int) -> bool {
    forall|p: u8|
        who.contains(p) ==> (#[trigger] rv.finger(p, i)) is Some && is_successor_of(
            ms,
            spec_finger_start(p, i),
            rv.finger(p, i)->0,
        )
}

/// The repair of finger `i` passes by the peer that lies exactly
/// `2^(i-1)` before the leaving peer `d`: there is such a peer, and it is not
/// the case that it is the predecessor `p0` of `d`, another peer than the
/// successor `s`, and that every peer lies less than `2^i` before `d`.
pub open spec fn stale_at(rest: Set<u8>, d: u8, s: u8, p0: u8, i: int) -> bool {
    let t = finger_origin(d, i);
    rest.contains(t) && !(t == p0 && s != p0 && ring_dist(s, d) < 2 * two_pow((i - 1) as nat))
}

/// Finger `i` of every peer of `rest` after the repair: `s` where it was
/// `d`, but for the peer that the repair passes by.
pub open spec fn finger_left_at(
    after: RingView,
    before: RingView,
    rest: Set<u8>,
    d: u8,
    s: u8,
    p0: u8,
    i: int,
) -> bool {
    forall|x: u8|
        rest.contains(x) ==> #[trigger] after.finger(x, i) == (if before.finger(x, i) == Some(d)
            && !(x == finger_origin(d, i) && stale_at(rest, d, s, p0, i)) {
            Some(s)
        } else {
            before.finger(x, i)
        })
}

/// How far the repair of finger `i` has come while it goes back from peer
/// to peer: the peers of `rest` that lie more than `2^(i-1)` and less than
/// `bound` before `d` pointed at `d` and point at `s`; every other peer has
/// the finger it had.
pub open spec fn left_up_to(
    rv: RingView,
    base: RingView,
    rest: Set<u8>,
    d: u8,
    s: u8,
    i: int,
    bound: int,
) -> bool {
    &&& forall|x: u8|
        rest.contains(x) && two_pow((i - 1) as nat) < ring_dist(x, d) < bound ==> #[trigger] rv.finger(
            x,
            i,
        ) == Some(s) && base.finger(x, i) == Some(d)
    &&& forall|x: u8|
        !(rest.contains(x) && two_pow((i - 1) as nat) < ring_dist(x, d) < bound)
            ==> #[trigger] rv.finger(x, i) == base.finger(x, i)
}

proof fn lemma_near_arith(d: u8, x: u8, a: u8, f: u8, w: int)
    requires
        1 <= w <= 128,
        x != d,
        ring_dist(x, a) == w,
        ring_dist(a, f) <= ring_dist(a, x),
        ring_dist(a, f) <= ring_dist(a, d),
    ensures
        ring_dist(x, d) < w ==> f != d,
        ring_dist(x, d) == w ==> f == d,
{
}

/// The exact finger `i` of a peer `x` with the leaving peer `d` among the
/// members: it is not `d` where `x` lies less than `2^(i-1)` before `d`, and
/// it is `d` where `x` lies exactly that far before `d`.
pub proof fn lemma_finger_at_leaver(ms: Set<u8>, d: u8, x: u8, i: int, f: u8)
    requires
        1 <= i <= 8,
        ms.contains(x),
        ms.contains(d),
        x != d,
        is_successor_of(ms, spec_finger_start(x, i), f),
    ensures
        ring_dist(x, d) < two_pow((i - 1) as nat) ==> f != d,
        ring_dist(x, d) == two_pow((i - 1) as nat) ==> f == d,
{
    lemma_finger_start_dist(x, i);
    let a = spec_finger_start(x, i);
    assert(ring_dist(a, f) <= ring_dist(a, x));
    assert(ring_dist(a, f) <= ring_dist(a, d));
    lemma_near_arith(d, x, a, f, two_pow((i - 1) as nat) as int);
}

proof fn lemma_farther_arith(d: u8, cur: u8, x: u8, a: u8, b: u8, fcur: u8, fx: u8, w: int)
    requires
        1 <= w <= 128,
        fcur != d,
        ring_dist(cur, a) == w,
        ring_dist(x, b) == w,
        ring_dist(cur, d) >= w,
        ring_dist(x, d) >= ring_dist(cur, d),
        ring_dist(a, fcur) <= ring_dist(a, d),
        ring_dist(b, fx) <= ring_dist(b, fcur),
    ensures
        fx != d,
{
}

/// Behind a peer whose exact finger `i` does not point at the leaving
/// peer `d`, no exact finger `i` points at `d`.
pub proof fn lemma_farther_not_at_leaver(
    ms: Set<u8>,
    d: u8,
    i: int,
    cur: u8,
    fcur: u8,
    x: u8,
    fx: u8,
)
    requires
        1 <= i <= 8,
        ms.contains(d),
        is_successor_of(ms, spec_finger_start(cur, i), fcur),
        is_successor_of(ms, spec_finger_start(x, i), fx),
        ring_dist(cur, d) >= two_pow((i - 1) as nat),
        ring_dist(x, d) >= ring_dist(cur, d),
        fcur != d,
    ensures
        fx != d,
{
    lemma_finger_start_dist(cur, i);
    lemma_finger_start_dist(x, i);
    let a = spec_finger_start(cur, i);
    let b = spec_finger_start(x, i);
    assert(ring_dist(a, fcur) <= ring_dist(a, d));
    assert(ms.contains(fcur));
    assert(ring_dist(b, fx) <= ring_dist(b, fcur));
    lemma_farther_arith(d, cur, x, a, b, fcur, fx, two_pow((i - 1) as nat) as int);
}

proof fn lemma_window_arith(d: u8, x: u8, y: u8, a: u8, f: u8, w: int)
    requires
        1 <= w <= 128,
        x != d,
        y != d,
        ring_dist(x, a) == w,
        ring_dist(x, d) >= w,
        ring_dist(a, f) <= ring_dist(a, d),
        ring_dist(a, f) <= ring_dist(a, y),
    ensures
        f == d ==> ring_dist(x, d) < w + ring_dist(y, d),
        f == y ==> ring_dist(x, d) >= w + ring_dist(y, d),
{
}

/// The exact finger `i` of a peer `x` that lies at least `2^(i-1)` before
/// the leaving peer `d` points at `d` if and only if `x` lies less than
/// `2^(i-1)` farther before `d` than the predecessor `p0` of `d`.
pub proof fn lemma_finger_window(ms: Set<u8>, d: u8, p0: u8, x: u8, i: int, f: u8)
    requires
        1 <= i <= 8,
        ms.contains(d),
        ms.contains(x),
        ms.contains(p0),
        x != d,
        p0 != d,
        forall|y: u8| #[trigger] ms.contains(y) && y != d ==> ring_dist(y, d) >= ring_dist(p0, d),
        is_successor_of(ms, spec_finger_start(x, i), f),
        ring_dist(x, d) >= two_pow((i - 1) as nat),
    ensures
        f == d <==> ring_dist(x, d) < two_pow((i - 1) as nat) + ring_dist(p0, d),
{
    lemma_finger_start_dist(x, i);
    let a = spec_finger_start(x, i);
    let w = two_pow((i - 1) as nat) as int;
    assert(ring_dist(a, f) <= ring_dist(a, d));
    assert(ring_dist(a, f) <= ring_dist(a, p0));
    lemma_window_arith(d, x, p0, a, f, w);
    if f != d {
        assert(ms.contains(f));
        assert(ring_dist(f, d) >= ring_dist(p0, d));
        lemma_window_arith(d, x, f, a, f, w);
    }
}

proof fn lemma_neighbours_arith(d: u8, s: u8, p0: u8, y: u8, d1: u8, q1: u8)
    requires
        y != d,
        p0 != d,
        s != d,
        ring_dist(d, d1) == 1,
        ring_dist(p0, q1) == 1,
        ring_dist(d1, s) <= ring_dist(d1, y),
        ring_dist(d1, s) <= ring_dist(d1, p0),
        ring_dist(q1, s) <= ring_dist(q1, y),
    ensures
        1 <= ring_dist(p0, d) <= ring_dist(y, d) <= ring_dist(s, d),
{
}

/// The predecessor `p0` of the successor `s` of the leaving peer `d` is
/// the peer nearest before `d`, and `s` the peer farthest before it.
pub proof fn lemma_neighbours_of_leaver(rest: Set<u8>, d: u8, s: u8, p0: u8)
    requires
        !rest.contains(d),
        rest.contains(p0),
        is_successor_of(rest, ring_add(d, 1), s),
        is_successor_of(rest, ring_add(p0, 1), s),
    ensures
        forall|y: u8| #[trigger]
            rest.contains(y) ==> 1 <= ring_dist(p0, d) <= ring_dist(y, d) <= ring_dist(s, d),
{
    let d1 = ring_add(d, 1);
    let q1 = ring_add(p0, 1);
    lemma_next_dist(d);
    lemma_next_dist(p0);
    assert(ring_dist(d1, s) <= ring_dist(d1, p0));
    assert forall|y: u8| #[trigger] rest.contains(y) implies 1 <= ring_dist(p0, d) <= ring_dist(
        y,
        d,
    ) <= ring_dist(s, d) by {
        assert(ring_dist(d1, s) <= ring_dist(d1, y));
        assert(ring_dist(q1, s) <= ring_dist(q1, y));
        lemma_neighbours_arith(d, s, p0, y, d1, q1);
    }
}

/// What the exact repair of finger `i` rests on: the store `base` in
/// which `d` is leaving the peers `rest`, with `p0` the predecessor of `s`,
/// and with finger `i` of every peer of `rest` exact with `d` among the
/// members; and the store `rv` of the moment, which differs from `base` in
/// fingers `i` only.
pub open spec fn repairing(
    rv: RingView,
    base: RingView,
    rest: Set<u8>,
    d: u8,
    s: u8,
    p0: u8,
    i: int,
) -> bool {
    &&& 2 <= i <= 8
    &&& rv.wf()
    &&& leaving(base, rest, d, s)
    &&& base.predecessor(s) == Some(p0)
    &&& finger_exact_for(base, rest, rest.insert(d), i)
    &&& same_but_fingers(rv, base)
    &&& forall|j: int| 1 <= j <= 8 && j != i ==> same_fingers_at(rv, base, j)
}

/// The store after the repair of finger `i`, against `base`.
pub open spec fn repaired(
    out: RingView,
    base: RingView,
    rest: Set<u8>,
    d: u8,
    s: u8,
    p0: u8,
    i: int,
) -> bool {
    &&& out.wf()
    &&& same_but_fingers(out, base)
    &&& forall|j: int| 1 <= j <= 8 && j != i ==> same_fingers_at(out, base, j)
    &&& forall|x: u8| !rest.contains(x) ==> #[trigger] out.finger(x, i) == base.finger(x, i)
    &&& finger_left_at(out, base, rest, d, s, p0, i)
}

/// A patch of finger `i` keeps what the repair rests on.
proof fn lemma_repair_patch(
    rv: RingView,
    base: RingView,
    rest: Set<u8>,
    d: u8,
    s: u8,
    p0: u8,
    i: int,
    cur: u8,
)
    requires
        repairing(rv, base, rest, d, s, p0, i),
    ensures
        repairing(rv.with_finger(cur, i, Some(s)), base, rest, d, s, p0, i),
        rv.with_finger(cur, i, Some(s)).predecessor(cur) == base.predecessor(cur),
        forall|x: u8|
            #[trigger] rv.with_finger(cur, i, Some(s)).finger(x, i) == (if x == cur {
                Some(s)
            } else {
                rv.finger(x, i)
            }),
{
    let patched = rv.with_finger(cur, i, Some(s));
    lemma_with_finger(rv, cur, i, Some(s));
    assert(rv.predecessor(cur) == base.predecessor(cur));
    assert(patched.predecessor(cur) == rv.predecessor(cur));
    assert forall|j: int| 1 <= j <= 8 && j != i implies same_fingers_at(patched, base, j) by {
        assert(same_fingers_at(rv, base, j));
        assert forall|p: u8| #[trigger] patched.finger(p, j) == base.finger(p, j) by {
            assert(rv.finger(p, j) == base.finger(p, j));
        }
    }
}

/// The repair of finger `i` once it has come round to the predecessor
/// `p0` of the leaving peer: every peer that lies more than `2^(i-1)` before
/// `d` has been repaired, and the repair ends at `p0` or one peer behind it.
pub proof fn lemma_leave_wrap(
    rv: RingView,
    base: RingView,
    rest: Set<u8>,
    d: u8,
    s: u8,
    p0: u8,
    i: int,
)
    requires
        repairing(rv, base, rest, d, s, p0, i),
        left_up_to(rv, base, rest, d, s, i, 256),
        ring_dist(s, d) > two_pow((i - 1) as nat),
    ensures
        update_finger_table_leave_chain(rv, p0, s, i, d).1 == Ok::<(), ChordError>(()),
        repaired(update_finger_table_leave_chain(rv, p0, s, i, d).0, base, rest, d, s, p0, i),
{
    let ms = rest.insert(d);
    let w = two_pow((i - 1) as nat) as int;
    let t = finger_origin(d, i);
    lemma_finger_start_dist(d, i);
    assert(rest.contains(p0) && is_successor_of(rest, ring_add(p0, 1), s)) by {
        assert(base.predecessor(s) is Some);
    }
    lemma_neighbours_of_leaver(rest, d, s, p0);
    assert(s != d);
    assert(base.finger(p0, i) is Some);
    assert(ms.contains(p0));
    lemma_finger_at_leaver(ms, d, p0, i, base.finger(p0, i)->0);
    assert forall|x: u8| rest.contains(x) && ring_dist(x, d) < w implies base.finger(x, i)
        != Some(d) by {
        assert(base.finger(x, i) is Some);
        assert(ms.contains(x));
        lemma_finger_at_leaver(ms, d, x, i, base.finger(x, i)->0);
    }
    assert forall|x: u8| rest.contains(x) && ring_dist(x, d) == w implies x == t by {}
    if ring_dist(p0, d) > w {
        assert(rv.finger(p0, i) == Some(s));
        assert forall|x: u8| rest.contains(x) implies #[trigger] rv.finger(x, i) == (
        if base.finger(x, i) == Some(d) && !(x == t && stale_at(rest, d, s, p0, i)) {
            Some(s)
        } else {
            base.finger(x, i)
        }) by {
            assert(ring_dist(x, d) >= ring_dist(p0, d));
        }
    } else if ring_dist(p0, d) == w {
        assert(p0 == t);
        assert(rv.finger(p0, i) == base.finger(p0, i));
        let patched = rv.with_finger(p0, i, Some(s));
        lemma_repair_patch(rv, base, rest, d, s, p0, i, p0);
        lemma_patch_changes_count(rv, p0, i, Some(s), Some(d), 256);
        assert(base.predecessor(p0) is Some);
        let p1 = base.predecessor(p0)->0;
        assert(rest.contains(p1));
        assert(p1 != p0) by {
            if p1 == p0 {
                assert(ring_dist(ring_add(p0, 1), p0) <= ring_dist(ring_add(p0, 1), s));
            }
        }
        assert(ring_dist(p1, d) >= ring_dist(p0, d));
        assert(patched.finger(p1, i) == rv.finger(p1, i));
        assert(rv.finger(p1, i) == Some(s));
        assert(update_finger_table_leave_chain(patched, p1, s, i, d) == (
            patched,
            Ok::<(), ChordError>(()),
        ));
        assert(base.finger(s, i) == Some(d)) by {
            assert(rv.finger(s, i) == Some(s) && base.finger(s, i) == Some(d));
        }
        assert(ms.contains(s));
        lemma_finger_window(ms, d, p0, s, i, d);
        assert(!stale_at(rest, d, s, p0, i));
        assert forall|x: u8| rest.contains(x) implies #[trigger] patched.finger(x, i) == (
        if base.finger(x, i) == Some(d) && !(x == t && stale_at(rest, d, s, p0, i)) {
            Some(s)
        } else {
            base.finger(x, i)
        }) by {
            assert(ring_dist(x, d) >= ring_dist(p0, d));
            if x != p0 {
                assert(rv.finger(x, i) == Some(s) && base.finger(x, i) == Some(d));
            }
        }
        assert forall|x: u8| !rest.contains(x) implies #[trigger] patched.finger(x, i)
            == base.finger(x, i) by {
            assert(rv.finger(x, i) == base.finger(x, i));
        }
    } else {
        assert(rv.finger(p0, i) == base.finger(p0, i));
        assert(stale_at(rest, d, s, p0, i) == rest.contains(t));
        assert forall|x: u8| rest.contains(x) implies #[trigger] rv.finger(x, i) == (
        if base.finger(x, i) == Some(d) && !(x == t && stale_at(rest, d, s, p0, i)) {
            Some(s)
        } else {
            base.finger(x, i)
        }) by {
            if ring_dist(x, d) > w {
                assert(rv.finger(x, i) == Some(s) && base.finger(x, i) == Some(d));
            } else {
                assert(rv.finger(x, i) == base.finger(x, i));
            }
        }
    }
}

/// From a peer that lies more than `2^(i-1)` before the leaving peer on,
/// going back from peer to peer, `update_finger_table_leave` succeeds and
/// repairs finger `i` of every peer of `rest` but the one that it passes by.
pub proof fn lemma_leave_chain(
    rv: RingView,
    base: RingView,
    rest: Set<u8>,
    d: u8,
    s: u8,
    p0: u8,
    i: int,
    cur: u8,
    bound: int,
)
    requires
        repairing(rv, base, rest, d, s, p0, i),
        left_up_to(rv, base, rest, d, s, i, bound),
        rest.contains(cur),
        bound == ring_dist(cur, d),
        two_pow((i - 1) as nat) < bound,
    ensures
        update_finger_table_leave_chain(rv, cur, s, i, d).1 == Ok::<(), ChordError>(()),
        repaired(update_finger_table_leave_chain(rv, cur, s, i, d).0, base, rest, d, s, p0, i),
    decreases fingers_matching(rv, i, Some(d), 256),
{
    let ms = rest.insert(d);
    let w = two_pow((i - 1) as nat) as int;
    let t = finger_origin(d, i);
    lemma_finger_start_dist(d, i);
    assert(rest.contains(p0) && is_successor_of(rest, ring_add(p0, 1), s)) by {
        assert(base.predecessor(s) is Some);
    }
    lemma_neighbours_of_leaver(rest, d, s, p0);
    assert(s != d);
    assert(rv.finger(cur, i) == base.finger(cur, i));
    assert(base.finger(cur, i) is Some);
    let f = rv.finger(cur, i)->0;
    assert(ms.contains(cur) && ms.contains(d) && ms.contains(p0));
    if f == d {
        let patched = rv.with_finger(cur, i, Some(s));
        lemma_repair_patch(rv, base, rest, d, s, p0, i, cur);
        lemma_patch_changes_count(rv, cur, i, Some(s), Some(d), 256);
        assert(base.predecessor(cur) is Some);
        if cur == s {
            assert(left_up_to(patched, base, rest, d, s, i, 256)) by {
                assert forall|x: u8|
                    rest.contains(x) && w < ring_dist(x, d) < 256 implies #[trigger] patched.finger(
                    x,
                    i,
                ) == Some(s) && base.finger(x, i) == Some(d) by {
                    assert(ring_dist(x, d) <= ring_dist(s, d));
                    if x != s {
                        assert(rv.finger(x, i) == Some(s) && base.finger(x, i) == Some(d));
                    }
                }
                assert forall|x: u8|
                    !(rest.contains(x) && w < ring_dist(x, d) < 256) implies #[trigger] patched.finger(
                    x,
                    i,
                ) == base.finger(x, i) by {
                    assert(rv.finger(x, i) == base.finger(x, i));
                }
            }
            lemma_leave_wrap(patched, base, rest, d, s, p0, i);
        } else {
            let q = base.predecessor(cur)->0;
            assert(rest.contains(q));
            assert(ring_dist(ring_add(q, 1), cur) <= ring_dist(ring_add(q, 1), s));
            assert(ring_dist(ring_add(d, 1), s) <= ring_dist(ring_add(d, 1), cur));
            assert(ring_dist(ring_add(d, 1), s) <= ring_dist(ring_add(d, 1), q));
            lemma_back_one_arith(d, s, q, cur, cur);
            let next_bound = ring_dist(q, d);
            assert(left_up_to(patched, base, rest, d, s, i, next_bound)) by {
                assert forall|x: u8|
                    rest.contains(x) && w < ring_dist(x, d) < next_bound implies #[trigger] patched.finger(
                    x,
                    i,
                ) == Some(s) && base.finger(x, i) == Some(d) by {
                    assert(ring_dist(ring_add(q, 1), cur) <= ring_dist(ring_add(q, 1), x));
                    lemma_back_one_arith(d, s, q, cur, x);
                    if x != cur {
                        assert(rv.finger(x, i) == Some(s) && base.finger(x, i) == Some(d));
                    }
                }
                assert forall|x: u8|
                    !(rest.contains(x) && w < ring_dist(x, d) < next_bound) implies #[trigger] patched.finger(
                    x,
                    i,
                ) == base.finger(x, i) by {
                    assert(rv.finger(x, i) == base.finger(x, i));
                }
            }
            lemma_leave_chain(patched, base, rest, d, s, p0, i, q, next_bound);
        }
    } else {
        lemma_finger_window(ms, d, p0, cur, i, f);
        assert(stale_at(rest, d, s, p0, i) == rest.contains(t)) by {
            assert(ring_dist(cur, d) <= ring_dist(s, d));
        }
        assert forall|x: u8| rest.contains(x) implies #[trigger] rv.finger(x, i) == (
        if base.finger(x, i) == Some(d) && !(x == t && stale_at(rest, d, s, p0, i)) {
            Some(s)
        } else {
            base.finger(x, i)
        }) by {
            assert(base.finger(x, i) is Some);
            assert(ms.contains(x));
            if ring_dist(x, d) >= bound {
                lemma_farther_not_at_leaver(ms, d, i, cur, f, x, base.finger(x, i)->0);
                assert(rv.finger(x, i) == base.finger(x, i));
            } else if ring_dist(x, d) > w {
                assert(rv.finger(x, i) == Some(s) && base.finger(x, i) == Some(d));
            } else {
                lemma_finger_at_leaver(ms, d, x, i, base.finger(x, i)->0);
                assert(rv.finger(x, i) == base.finger(x, i));
            }
        }
    }
}

proof fn lemma_leave_first_arith(d: u8, t: u8, p: u8, ps: u8, x: u8, w: int)
    requires
        1 <= w <= 128,
        d != x,
        d != p,
        ring_dist(t, d) == w,
        in_open_interval(p, d, t),
        right_closed(t, p, ps),
        ring_dist(ring_add(p, 1), ps) <= ring_dist(ring_add(p, 1), x),
        ring_dist(x, d) > w,
    ensures
        ring_dist(p, d) > w,
        ring_dist(x, d) >= ring_dist(p, d),
{
}

/// The peer at which the repair of finger `i` starts: the lookup from the
/// leaving peer `d` of the identifier `2^(i-1)` before `d` ends at the peer
/// of `rest` that lies nearest before `d` among those more than `2^(i-1)`
/// before `d`; it ends at `d` itself where no peer lies that far.
pub proof fn lemma_leave_first(rv: RingView, rest: Set<u8>, d: u8, s: u8, i: int)
    requires
        1 <= i <= 8,
        leaving(rv, rest, d, s),
    ensures
        find_predecessor_walk(rv, d, finger_origin(d, i)) is Ok,
        rest.insert(d).contains(find_predecessor_walk(rv, d, finger_origin(d, i))->Ok_0),
        find_predecessor_walk(rv, d, finger_origin(d, i))->Ok_0 == d ==> forall|x: u8| #[trigger]
            rest.contains(x) ==> ring_dist(x, d) <= two_pow((i - 1) as nat),
        find_predecessor_walk(rv, d, finger_origin(d, i))->Ok_0 != d ==> ring_dist(
            find_predecessor_walk(rv, d, finger_origin(d, i))->Ok_0,
            d,
        ) > two_pow((i - 1) as nat) && forall|x: u8| #[trigger]
            rest.contains(x) && ring_dist(x, d) > two_pow((i - 1) as nat) ==> ring_dist(x, d)
                >= ring_dist(find_predecessor_walk(rv, d, finger_origin(d, i))->Ok_0, d),
{
    lemma_finger_start_dist(d, i);
    lemma_successor_is_farthest(rest, d, s);
    let w = two_pow((i - 1) as nat) as int;
    let t = finger_origin(d, i);
    let all = rest.insert(d);
    assert(walk_closed(rv, all)) by {
        assert forall|p: u8| all.contains(p) implies (#[trigger] rv.successor(p)) is Some by {
            assert(rv.finger(p, 1) is Some);
        }
    }
    lemma_walk_stays(rv, all, d, t);
    let p = find_predecessor_walk(rv, d, t)->Ok_0;
    let ps = rv.successor(p)->0;
    assert(ring_dist(t, d) == w);
    if p == d {
        assert forall|x: u8| #[trigger] rest.contains(x) implies ring_dist(x, d) <= w by {
            lemma_lookup_ends_at_start(d, s, t, x, w);
            lemma_lookup_ends_at_start(d, s, t, s, w);
        }
    } else {
        assert(rest.contains(p));
        assert forall|x: u8| #[trigger] rest.contains(x) && ring_dist(x, d) > w implies ring_dist(
            p,
            d,
        ) > w && ring_dist(x, d) >= ring_dist(p, d) by {
            assert(ring_dist(ring_add(p, 1), ps) <= ring_dist(ring_add(p, 1), x));
            lemma_leave_first_arith(d, t, p, ps, x, w);
        }
    }
}

proof fn lemma_own_finger_arith(d: u8, s: u8, a: u8, f: u8, w: int)
    requires
        1 <= w <= 128,
        s != d,
        ring_dist(d, a) == w,
        ring_dist(s, d) <= w,
        ring_dist(a, f) <= ring_dist(a, s),
    ensures
        f != d,
{
}

/// One round of `update_others_leave` on a store in which finger `i` of
/// every member is exact: it succeeds and repairs finger `i` of every peer of
/// `rest` but the one that it passes by. Nothing else changes.
pub proof fn lemma_leave_round(rv: RingView, rest: Set<u8>, d: u8, s: u8, p0: u8, i: int)
    requires
        repairing(rv, rv, rest, d, s, p0, i),
        finger_exact_for(rv, rest.insert(d), rest.insert(d), i),
    ensures
        find_predecessor_walk(rv, d, finger_origin(d, i)) is Ok,
        update_finger_table_leave_chain(
            rv,
            find_predecessor_walk(rv, d, finger_origin(d, i))->Ok_0,
            s,
            i,
            d,
        ).1 == Ok::<(), ChordError>(()),
        repaired(
            update_finger_table_leave_chain(
                rv,
                find_predecessor_walk(rv, d, finger_origin(d, i))->Ok_0,
                s,
                i,
                d,
            ).0,
            rv,
            rest,
            d,
            s,
            p0,
            i,
        ),
{
    let ms = rest.insert(d);
    let w = two_pow((i - 1) as nat) as int;
    let t = finger_origin(d, i);
    lemma_leave_first(rv, rest, d, s, i);
    lemma_finger_start_dist(d, i);
    let p = find_predecessor_walk(rv, d, t)->Ok_0;
    assert(rest.contains(p0) && is_successor_of(rest, ring_add(p0, 1), s)) by {
        assert(rv.predecessor(s) is Some);
    }
    lemma_neighbours_of_leaver(rest, d, s, p0);
    assert forall|j: int| 1 <= j <= 8 && j != i implies same_fingers_at(rv, rv, j) by {}
    if p == d {
        assert(ms.contains(d));
        assert(rv.finger(d, i) is Some);
        let f = rv.finger(d, i)->0;
        let a = spec_finger_start(d, i);
        assert(ms.contains(s));
        assert(ring_dist(a, f) <= ring_dist(a, s));
        lemma_own_finger_arith(d, s, a, f, w);
        assert(update_finger_table_leave_chain(rv, d, s, i, d) == (rv, Ok::<(), ChordError>(())));
        assert(stale_at(rest, d, s, p0, i) == rest.contains(t));
        assert forall|x: u8| rest.contains(x) implies #[trigger] rv.finger(x, i) == (
        if rv.finger(x, i) == Some(d) && !(x == t && stale_at(rest, d, s, p0, i)) {
            Some(s)
        } else {
            rv.finger(x, i)
        }) by {
            assert(rv.finger(x, i) is Some);
            assert(ms.contains(x));
            lemma_finger_at_leaver(ms, d, x, i, rv.finger(x, i)->0);
        }
    } else {
        assert(rest.contains(p));
        assert(left_up_to(rv, rv, rest, d, s, i, ring_dist(p, d)));
        assert(finger_exact_for(rv, rest, ms, i)) by {
            assert forall|x: u8| rest.contains(x) implies (#[trigger] rv.finger(x, i)) is Some
                && is_successor_of(ms, spec_finger_start(x, i), rv.finger(x, i)->0) by {
                assert(ms.contains(x));
            }
        }
        lemma_leave_chain(rv, rv, rest, d, s, p0, i, p, ring_dist(p, d));
    }
}

/// One round of `update_others_leave` on any store in which `d` is
/// leaving: it succeeds, and changes nothing but fingers `i` that pointed at
/// `d`, which it points at `s`.
pub proof fn lemma_leave_round_frames(rv: RingView, rest: Set<u8>, d: u8, s: u8, i: int)
    requires
        1 <= i <= 8,
        leaving(rv, rest, d, s),
    ensures
        find_predecessor_walk(rv, d, finger_origin(d, i)) is Ok,
        update_finger_table_leave_chain(
            rv,
            find_predecessor_walk(rv, d, finger_origin(d, i))->Ok_0,
            s,
            i,
            d,
        ).1 == Ok::<(), ChordError>(()),
        update_finger_table_leave_chain(
            rv,
            find_predecessor_walk(rv, d, finger_origin(d, i))->Ok_0,
            s,
            i,
            d,
        ).0.wf(),
        same_but_fingers(
            update_finger_table_leave_chain(
                rv,
                find_predecessor_walk(rv, d, finger_origin(d, i))->Ok_0,
                s,
                i,
                d,
            ).0,
            rv,
        ),
        forall|j: int|
            1 <= j <= 8 && j != i ==> same_fingers_at(
                update_finger_table_leave_chain(
                    rv,
                    find_predecessor_walk(rv, d, finger_origin(d, i))->Ok_0,
                    s,
                    i,
                    d,
                ).0,
                rv,
                j,
            ),
        finger_kept_or_left(
            update_finger_table_leave_chain(
                rv,
                find_predecessor_walk(rv, d, finger_origin(d, i))->Ok_0,
                s,
                i,
                d,
            ).0,
            rv,
            rest,
            d,
            s,
            i,
        ),
{
    lemma_leave_first(rv, rest, d, s, i);
    let p = find_predecessor_walk(rv, d, finger_origin(d, i))->Ok_0;
    assert forall|j: int| 1 <= j <= 8 && j != i implies same_fingers_at(rv, rv, j) by {}
    assert(finger_kept_or_left(rv, rv, rest, d, s, i));
    lemma_leave_chain_frames(rv, rv, rest, d, s, i, p);
}

/// How far `update_others_leave` has come before round `i`, measured
/// against the store `base` that it started on: the fingers from `i` on are
/// untouched; each finger before `i` is kept, or was `d` and is `s`; and from
/// finger 2 on, where the finger was exact for every member, it is repaired
/// for every peer of `rest` but the one that the repair passes by. Nothing
/// else has changed.
pub open spec fn rounds_left(
    rv: RingView,
    base: RingView,
    rest: Set<u8>,
    d: u8,
    s: u8,
    p0: u8,
    i: int,
) -> bool {
    &&& rv.wf()
    &&& same_but_fingers(rv, base)
    &&& forall|j: int| i <= j <= 8 ==> #[trigger] same_fingers_at(rv, base, j)
    &&& forall|j: int| 1 <= j < i ==> #[trigger] finger_kept_or_left(rv, base, rest, d, s, j)
    &&& forall|j: int|
        2 <= j < i && finger_exact_for(base, rest.insert(d), rest.insert(d), j)
            ==> #[trigger] finger_left_at(rv, base, rest, d, s, p0, j)
}

/// Before each round of `update_others_leave` the store is fit for the
/// round.
pub proof fn lemma_leave_round_state(
    rv: RingView,
    base: RingView,
    rest: Set<u8>,
    d: u8,
    s: u8,
    p0: u8,
    i: int,
)
    requires
        1 <= i <= 9,
        leaving(base, rest, d, s),
        rounds_left(rv, base, rest, d, s, p0, i),
    ensures
        leaving(rv, rest, d, s),
        rv.predecessor(s) == base.predecessor(s),
        i <= 8 && finger_exact_for(base, rest.insert(d), rest.insert(d), i) ==> finger_exact_for(
            rv,
            rest.insert(d),
            rest.insert(d),
            i,
        ),
{
    let all = rest.insert(d);
    assert forall|p: u8, j: int| 1 <= j <= 8 implies #[trigger] rv.finger(p, j) == base.finger(
        p,
        j,
    ) || (all.contains(p) && base.finger(p, j) == Some(d) && rv.finger(p, j) == Some(s)) by {
        if j < i {
            assert(finger_kept_or_left(rv, base, rest, d, s, j));
        } else {
            assert(same_fingers_at(rv, base, j));
        }
    }
    assert forall|p: u8, j: int| all.contains(p) && 1 <= j <= 8 implies (#[trigger] rv.finger(
        p,
        j,
    )) is Some && all.contains(rv.finger(p, j)->0) by {
        assert(base.finger(p, j) is Some);
    }
    assert(rv.successor(d) == Some(s)) by {
        assert(base.successor(d) == Some(s));
        assert(rv.finger(d, 1) == base.finger(d, 1) || (base.finger(d, 1) == Some(d)));
    }
    assert(rv.predecessor(d) == base.predecessor(d));
    assert(rv.predecessor(s) == base.predecessor(s));
    assert forall|p: u8| rest.contains(p) implies (#[trigger] rv.successor(p)) is Some
        && is_successor_of(rest, ring_add(p, 1), rv.successor(p)->0) by {
        assert(base.successor(p) is Some);
        assert(rv.finger(p, 1) == base.finger(p, 1) || (base.finger(p, 1) == Some(d)));
    }
    assert forall|p: u8| rest.contains(p) implies (#[trigger] rv.predecessor(p)) is Some
        && rest.contains(rv.predecessor(p)->0) && is_successor_of(
        rest,
        ring_add(rv.predecessor(p)->0, 1),
        p,
    ) by {
        assert(rv.predecessor(p) == base.predecessor(p));
    }
    if i <= 8 && finger_exact_for(base, all, all, i) {
        assert(same_fingers_at(rv, base, i));
        assert forall|p: u8| all.contains(p) implies (#[trigger] rv.finger(p, i)) is Some
            && is_successor_of(all, spec_finger_start(p, i), rv.finger(p, i)->0) by {
            assert(rv.finger(p, i) == base.finger(p, i));
        }
    }
}

/// After a round, `update_others_leave` has come one round farther.
pub proof fn lemma_leave_round_done(
    out: RingView,
    rv: RingView,
    base: RingView,
    rest: Set<u8>,
    d: u8,
    s: u8,
    p0: u8,
    i: int,
)
    requires
        1 <= i <= 8,
        rounds_left(rv, base, rest, d, s, p0, i),
        out.wf(),
        same_but_fingers(out, rv),
        forall|j: int| 1 <= j <= 8 && j != i ==> same_fingers_at(out, rv, j),
        finger_kept_or_left(out, rv, rest, d, s, i),
        2 <= i && finger_exact_for(base, rest.insert(d), rest.insert(d), i) ==> finger_left_at(
            out,
            rv,
            rest,
            d,
            s,
            p0,
            i,
        ),
    ensures
        rounds_left(out, base, rest, d, s, p0, i + 1),
{
    let all = rest.insert(d);
    assert(same_but_fingers(out, base)) by {
        assert forall|p: u8| #[trigger] out.predecessor(p) == base.predecessor(p) by {
            assert(rv.predecessor(p) == base.predecessor(p));
        }
        assert forall|p: u8| #[trigger] out.keys(p) == base.keys(p) by {
            assert(rv.keys(p) == base.keys(p));
        }
        assert forall|p: u8| #[trigger] out.state(p) == base.state(p) by {
            assert(rv.state(p) == base.state(p));
        }
        assert forall|p: u8| #[trigger] out.lookup_info(p) == base.lookup_info(p) by {
            assert(rv.lookup_info(p) == base.lookup_info(p));
        }
    }
    assert(same_fingers_at(rv, base, i));
    assert forall|j: int| i + 1 <= j <= 8 implies #[trigger] same_fingers_at(out, base, j) by {
        assert(same_fingers_at(out, rv, j));
        assert(same_fingers_at(rv, base, j));
        assert forall|p: u8| #[trigger] out.finger(p, j) == base.finger(p, j) by {
            assert(rv.finger(p, j) == base.finger(p, j));
        }
    }
    assert forall|j: int| 1 <= j < i + 1 implies #[trigger] finger_kept_or_left(
        out,
        base,
        rest,
        d,
        s,
        j,
    ) by {
        if j < i {
            assert(same_fingers_at(out, rv, j));
            assert(finger_kept_or_left(rv, base, rest, d, s, j));
            assert forall|p: u8|
                #[trigger] out.finger(p, j) == base.finger(p, j) || (all.contains(p)
                    && base.finger(p, j) == Some(d) && out.finger(p, j) == Some(s)) by {
                assert(out.finger(p, j) == rv.finger(p, j));
                assert(rv.finger(p, j) == base.finger(p, j) || (all.contains(p) && base.finger(
                    p,
                    j,
                ) == Some(d) && rv.finger(p, j) == Some(s)));
            }
        } else {
            assert forall|p: u8|
                #[trigger] out.finger(p, j) == base.finger(p, j) || (all.contains(p)
                    && base.finger(p, j) == Some(d) && out.finger(p, j) == Some(s)) by {
                assert(rv.finger(p, j) == base.finger(p, j));
                assert(out.finger(p, j) == rv.finger(p, j) || (all.contains(p) && rv.finger(p, j)
                    == Some(d) && out.finger(p, j) == Some(s)));
            }
        }
    }
    assert forall|j: int|
        2 <= j < i + 1 && finger_exact_for(base, all, all, j) implies #[trigger] finger_left_at(
        out,
        base,
        rest,
        d,
        s,
        p0,
        j,
    ) by {
        if j < i {
            assert(same_fingers_at(out, rv, j));
            assert(finger_left_at(rv, base, rest, d, s, p0, j));
            assert forall|x: u8| rest.contains(x) implies #[trigger] out.finger(x, j) == (
            if base.finger(x, j) == Some(d) && !(x == finger_origin(d, j) && stale_at(
                rest,
                d,
                s,
                p0,
                j,
            )) {
                Some(s)
            } else {
                base.finger(x, j)
            }) by {
                assert(out.finger(x, j) == rv.finger(x, j));
            }
        } else {
            assert(finger_left_at(out, rv, rest, d, s, p0, i));
            assert forall|x: u8| rest.contains(x) implies #[trigger] out.finger(x, j) == (
            if base.finger(x, j) == Some(d) && !(x == finger_origin(d, j) && stale_at(
                rest,
                d,
                s,
                p0,
                j,
            )) {
                Some(s)
            } else {
                base.finger(x, j)
            }) by {
                assert(rv.finger(x, j) == base.finger(x, j));
            }
        }
    }
}

/// A repaired finger is kept, or was `d` and is `s`.
pub proof fn lemma_repaired_is_kept_or_left(
    out: RingView,
    rv: RingView,
    rest: Set<u8>,
    d: u8,
    s: u8,
    p0: u8,
    i: int,
)
    requires
        repaired(out, rv, rest, d, s, p0, i),
    ensures
        finger_kept_or_left(out, rv, rest, d, s, i),
{
    assert forall|p: u8|
        #[trigger] out.finger(p, i) == rv.finger(p, i) || (rest.insert(d).contains(p) && rv.finger(
            p,
            i,
        ) == Some(d) && out.finger(p, i) == Some(s)) by {
        if rest.contains(p) {
            assert(out.finger(p, i) == (if rv.finger(p, i) == Some(d) && !(p == finger_origin(d, i)
                && stale_at(rest, d, s, p0, i)) {
                Some(s)
            } else {
                rv.finger(p, i)
            }));
        }
    }
}

/// From round `i` on, `update_others_leave` succeeds and comes to its
/// end.
pub proof fn lemma_leave_rounds(
    rv: RingView,
    base: RingView,
    rest: Set<u8>,
    d: u8,
    s: u8,
    p0: u8,
    i: int,
)
    requires
        1 <= i <= 9,
        leaving(base, rest, d, s),
        base.predecessor(s) == Some(p0),
        rounds_left(rv, base, rest, d, s, p0, i),
    ensures
        update_others_leave_from(rv, d, i).1 == Ok::<(), ChordError>(()),
        rounds_left(update_others_leave_from(rv, d, i).0, base, rest, d, s, p0, 9),
    decreases 9 - i,
{
    if i <= 8 {
        let all = rest.insert(d);
        lemma_leave_round_state(rv, base, rest, d, s, p0, i);
        let p = find_predecessor_walk(rv, d, finger_origin(d, i))->Ok_0;
        let out = update_finger_table_leave_chain(rv, p, s, i, d).0;
        if 2 <= i && finger_exact_for(base, all, all, i) {
            assert(finger_exact_for(rv, rest, all, i)) by {
                assert forall|x: u8| rest.contains(x) implies (#[trigger] rv.finger(x, i)) is Some
                    && is_successor_of(all, spec_finger_start(x, i), rv.finger(x, i)->0) by {
                    assert(all.contains(x));
                }
            }
            assert forall|j: int| 1 <= j <= 8 && j != i implies same_fingers_at(rv, rv, j) by {}
            lemma_leave_round(rv, rest, d, s, p0, i);
            lemma_repaired_is_kept_or_left(out, rv, rest, d, s, p0, i);
        } else {
            lemma_leave_round_frames(rv, rest, d, s, i);
        }
        lemma_leave_round_done(out, rv, base, rest, d, s, p0, i);
        lemma_leave_rounds(out, base, rest, d, s, p0, i + 1);
    }
}

/// The store after the first two steps of a leave: the neighbours of `d`
/// are linked to each other.
pub open spec fn leave_linked(rv: RingView, d: u8) -> RingView {
    rv.with_predecessor(rv.successor(d)->0, rv.predecessor(d)).with_finger(
        rv.predecessor(d)->0,
        1,
        rv.successor(d),
    )
}

/// The store after the third step of a leave: the keys of `d` are with its
/// successor.
pub open spec fn leave_moved(rv: RingView, d: u8) -> RingView {
    transfer_keys_leave_result(leave_linked(rv, d), d).0
}

/// The store after the fourth step of a leave: `update_others_leave`.
pub open spec fn leave_patched(rv: RingView, d: u8) -> RingView {
    update_others_leave_from(leave_moved(rv, d), d, 1).0
}

proof fn lemma_leaver_has_neighbours_arith(d: u8, s: u8, p0: u8, x: u8)
    requires
        x != d,
        ring_dist(ring_add(d, 1), s) <= ring_dist(ring_add(d, 1), x),
        ring_dist(ring_add(p0, 1), d) <= ring_dist(ring_add(p0, 1), x),
    ensures
        s != d,
        p0 != d,
{
}

proof fn lemma_linked_arith(d: u8, s: u8, p0: u8, x: u8)
    requires
        x != d,
        p0 != d,
        ring_dist(ring_add(d, 1), s) <= ring_dist(ring_add(d, 1), x),
        ring_dist(ring_add(p0, 1), d) <= ring_dist(ring_add(p0, 1), x),
    ensures
        ring_dist(ring_add(p0, 1), s) <= ring_dist(ring_add(p0, 1), x),
{
}

proof fn lemma_one_predecessor_arith(d: u8, p: u8, p0: u8)
    requires
        p != d,
        p0 != d,
        ring_dist(ring_add(p, 1), d) <= ring_dist(ring_add(p, 1), p0),
        ring_dist(ring_add(p0, 1), d) <= ring_dist(ring_add(p0, 1), p),
    ensures
        p == p0,
{
}

proof fn lemma_key_goes_on_arith(d: u8, s: u8, k: u8, x: u8)
    requires
        x != d,
        ring_dist(k, d) <= ring_dist(k, x),
        ring_dist(ring_add(d, 1), s) <= ring_dist(ring_add(d, 1), x),
    ensures
        ring_dist(k, s) <= ring_dist(k, x),
{
}

/// The successor among the peers without `d` of an identifier whose
/// successor was `f`: `f` itself, or the successor `s` of `d` where `f` was
/// `d`.
pub proof fn lemma_successor_after_remove(ms: Set<u8>, d: u8, s: u8, k: u8, f: u8)
    requires
        is_successor_of(ms, k, f),
        is_successor_of(ms.remove(d), ring_add(d, 1), s),
    ensures
        is_successor_of(ms.remove(d), k, if f == d {
            s
        } else {
            f
        }),
{
    let rest = ms.remove(d);
    let g = if f == d {
        s
    } else {
        f
    };
    assert forall|x: u8| #[trigger] rest.contains(x) implies ring_dist(k, g) <= ring_dist(k, x) by {
        assert(ms.contains(x));
        assert(ring_dist(k, f) <= ring_dist(k, x));
        if f == d {
            assert(ring_dist(ring_add(d, 1), s) <= ring_dist(ring_add(d, 1), x));
            lemma_key_goes_on_arith(d, s, k, x);
        }
    }
}

/// The first three steps of the leave of a member `d` of a sound ring
/// that has another member: they succeed, and leave the store fit for
/// `update_others_leave`, with every key at its owner among the other
/// members.
pub proof fn lemma_leave_links(rv: RingView, ms: Set<u8>, d: u8, other: u8)
    requires
        links_ok(rv, ms),
        keys_placed(rv, ms),
        ms.contains(d),
        ms.contains(other),
        other != d,
    ensures
        rv.successor(d) is Some,
        rv.predecessor(d) is Some,
        rv.successor(d)->0 != d,
        rv.predecessor(d)->0 != d,
        transfer_keys_leave_result(leave_linked(rv, d), d).1 == Ok::<
            Seq<Seq<char>>,
            ChordError,
        >(migration_lines(rv.keys(d).dom(), d, rv.successor(d)->0, 256)),
        leaving(leave_moved(rv, d), ms.remove(d), d, rv.successor(d)->0),
        leave_moved(rv, d).predecessor(rv.successor(d)->0) == rv.predecessor(d),
        forall|p: u8, j: int|
            1 <= j <= 8 ==> #[trigger] leave_moved(rv, d).finger(p, j) == (if p == rv.predecessor(
                d,
            )->0 && j == 1 {
                rv.successor(d)
            } else {
                rv.finger(p, j)
            }),
        keys_placed(leave_moved(rv, d), ms.remove(d)),
        forall|p: u8| #[trigger]
            leave_moved(rv, d).keys(p) == (if p == d {
                Map::<u8, Option<u8>>::empty()
            } else if p == rv.successor(d)->0 {
                rv.keys(p).union_prefer_right(rv.keys(d))
            } else {
                rv.keys(p)
            }),
        forall|p: u8| #[trigger] leave_moved(rv, d).state(p) == rv.state(p),
        forall|p: u8| #[trigger] leave_moved(rv, d).lookup_info(p) == rv.lookup_info(p),
{
    let rest = ms.remove(d);
    assert(rv.successor(d) is Some);
    assert(rv.predecessor(d) is Some);
    let s = rv.successor(d)->0;
    let p0 = rv.predecessor(d)->0;
    assert(ring_dist(ring_add(d, 1), s) <= ring_dist(ring_add(d, 1), other));
    assert(ring_dist(ring_add(p0, 1), d) <= ring_dist(ring_add(p0, 1), other));
    lemma_leaver_has_neighbours_arith(d, s, p0, other);
    assert(rest.contains(s) && rest.contains(p0));
    let l1 = rv.with_predecessor(s, Some(p0));
    lemma_with_predecessor(rv, s, Some(p0));
    let l2 = l1.with_finger(p0, 1, Some(s));
    lemma_with_finger(l1, p0, 1, Some(s));
    assert(l2 == leave_linked(rv, d));
    assert(l2.successor(d) == Some(s)) by {
        assert(l2.finger(d, 1) == l1.finger(d, 1));
        assert(l1.finger(d, 1) == rv.finger(d, 1));
    }
    assert(l2.keys(d) == rv.keys(d) && l2.keys(s) == rv.keys(s)) by {
        assert(l2.keys(d) == l1.keys(d));
        assert(l2.keys(s) == l1.keys(s));
    }
    let ks = l2.keys(d).dom();
    let given = l2.with_keys(s, l2.keys(s).union_prefer_right(l2.keys(d).restrict(ks)));
    lemma_with_keys(l2, s, l2.keys(s).union_prefer_right(l2.keys(d).restrict(ks)));
    let out = given.with_keys(d, given.keys(d).remove_keys(ks));
    lemma_with_keys(given, d, given.keys(d).remove_keys(ks));
    assert(out == move_keys(l2, d, s, ks));
    assert(out == leave_moved(rv, d));
    assert(given.keys(d) == l2.keys(d));
    assert(out.keys(d) =~= Map::<u8, Option<u8>>::empty());
    assert(out.keys(s) =~= rv.keys(s).union_prefer_right(rv.keys(d))) by {
        assert(l2.keys(d).restrict(ks) =~= l2.keys(d));
        assert(out.keys(s) == given.keys(s));
    }
    assert forall|p: u8| #[trigger]
        out.keys(p) == (if p == d {
            Map::<u8, Option<u8>>::empty()
        } else if p == s {
            rv.keys(p).union_prefer_right(rv.keys(d))
        } else {
            rv.keys(p)
        }) by {
        if p != d && p != s {
            assert(out.keys(p) == given.keys(p));
            assert(given.keys(p) == l2.keys(p));
            assert(l2.keys(p) == l1.keys(p));
        }
    }
    assert forall|p: u8| #[trigger] out.state(p) == rv.state(p) by {
        assert(out.state(p) == given.state(p));
        assert(given.state(p) == l2.state(p));
        assert(l2.state(p) == l1.state(p));
    }
    assert forall|p: u8| #[trigger] out.lookup_info(p) == rv.lookup_info(p) by {
        assert(out.lookup_info(p) == given.lookup_info(p));
        assert(given.lookup_info(p) == l2.lookup_info(p));
        assert(l2.lookup_info(p) == l1.lookup_info(p));
    }
    assert forall|p: u8, j: int| 1 <= j <= 8 implies #[trigger] out.finger(p, j) == (if p == p0
        && j == 1 {
        Some(s)
    } else {
        rv.finger(p, j)
    }) by {
        assert(out.finger(p, j) == given.finger(p, j));
        assert(given.finger(p, j) == l2.finger(p, j));
        assert(l1.finger(p, j) == rv.finger(p, j));
    }
    assert forall|p: u8| #[trigger]
        out.predecessor(p) == (if p == s {
            Some(p0)
        } else {
            rv.predecessor(p)
        }) by {
        assert(out.predecessor(p) == given.predecessor(p));
        assert(given.predecessor(p) == l2.predecessor(p));
        assert(l2.predecessor(p) == l1.predecessor(p));
    }
    assert(is_successor_of(rest, ring_add(d, 1), s));
    assert(is_successor_of(rest, ring_add(p0, 1), s)) by {
        assert forall|x: u8| #[trigger] rest.contains(x) implies ring_dist(ring_add(p0, 1), s)
            <= ring_dist(ring_add(p0, 1), x) by {
            assert(ms.contains(x));
            assert(ring_dist(ring_add(d, 1), s) <= ring_dist(ring_add(d, 1), x));
            assert(ring_dist(ring_add(p0, 1), d) <= ring_dist(ring_add(p0, 1), x));
            lemma_linked_arith(d, s, p0, x);
        }
    }
    assert forall|p: u8, j: int| rest.insert(d).contains(p) && 1 <= j <= 8 implies (
    #[trigger] out.finger(p, j)) is Some && rest.insert(d).contains(out.finger(p, j)->0) by {
        assert(ms.contains(p));
        assert(rv.finger(p, j) is Some);
    }
    assert forall|p: u8| rest.contains(p) implies (#[trigger] out.successor(p)) is Some
        && is_successor_of(rest, ring_add(p, 1), out.successor(p)->0) by {
        assert(ms.contains(p));
        assert(rv.successor(p) is Some);
        assert(out.finger(p, 1) == (if p == p0 {
            Some(s)
        } else {
            rv.finger(p, 1)
        }));
        if p != p0 {
            let f = rv.successor(p)->0;
            if f == d {
                assert(ring_dist(ring_add(p, 1), d) <= ring_dist(ring_add(p, 1), p0));
                assert(ring_dist(ring_add(p0, 1), d) <= ring_dist(ring_add(p0, 1), p));
                lemma_one_predecessor_arith(d, p, p0);
            }
            lemma_successor_after_remove(ms, d, s, ring_add(p, 1), f);
        }
    }
    assert forall|p: u8| rest.contains(p) implies (#[trigger] out.predecessor(p)) is Some
        && rest.contains(out.predecessor(p)->0) && is_successor_of(
        rest,
        ring_add(out.predecessor(p)->0, 1),
        p,
    ) by {
        assert(ms.contains(p));
        assert(rv.predecessor(p) is Some);
        if p != s {
            let q = rv.predecessor(p)->0;
            if q == d {
                lemma_successor_unique(ms, ring_add(d, 1), p, s);
            }
            lemma_successor_after_remove(ms, d, s, ring_add(q, 1), p);
        }
    }
    assert(out.predecessor(d) == rv.predecessor(d));
    assert forall|p: u8, k: u8| #[trigger] out.keys(p).contains_key(k) implies is_successor_of(
        rest,
        k,
        p,
    ) by {
        if p == s {
            if rv.keys(d).contains_key(k) {
                assert(is_successor_of(ms, k, d));
                lemma_successor_after_remove(ms, d, s, k, d);
            } else {
                assert(rv.keys(s).contains_key(k));
                lemma_successor_after_remove(ms, d, s, k, s);
            }
        } else {
            assert(rv.keys(p).contains_key(k));
            lemma_successor_after_remove(ms, d, s, k, p);
        }
    }
}

/// The leave of a member `d` of a sound ring that has another member,
/// step by step: each step succeeds, and leaves the store as the step after
/// it needs it.
pub proof fn lemma_leave_steps(rv: RingView, d: u8, other: u8)
    requires
        ring_ok(rv),
        rv.is_member(d),
        rv.is_member(other),
        other != d,
    ensures
        rv.successor(d) is Some,
        rv.predecessor(d) is Some,
        leaving(leave_moved(rv, d), rv.members().remove(d), d, rv.successor(d)->0),
        rounds_left(
            leave_patched(rv, d),
            leave_moved(rv, d),
            rv.members().remove(d),
            d,
            rv.successor(d)->0,
            rv.predecessor(d)->0,
            9,
        ),
        leave_result(rv, d) == (
            leave_patched(rv, d).with_state(d, NodeState::Detached),
            Ok::<Seq<Seq<char>>, ChordError>(
                migration_lines(rv.keys(d).dom(), d, rv.successor(d)->0, 256),
            ),
        ),
{
    let ms = rv.members();
    let rest = ms.remove(d);
    lemma_leave_links(rv, ms, d, other);
    let s = rv.successor(d)->0;
    let p0 = rv.predecessor(d)->0;
    let moved = leave_moved(rv, d);
    assert(rounds_left(moved, moved, rest, d, s, p0, 1));
    lemma_leave_rounds(moved, moved, rest, d, s, p0, 1);
}

/// The store after the leave of `d`, against the store before it: the
/// successors and predecessors of the other members are exact among them,
/// every key is with its owner among them, and each of their fingers is the
/// finger it was, or was `d` and is the successor of `d`.
pub open spec fn left_ring(after: RingView, before: RingView, d: u8) -> bool {
    let rest = before.members().remove(d);
    &&& after.wf()
    &&& after.members() == rest
    &&& successors_exact(after, rest)
    &&& predecessors_exact(after, rest)
    &&& keys_placed(after, rest)
    &&& forall|p: u8, j: int|
        rest.contains(p) && 1 <= j <= 8 ==> #[trigger] after.finger(p, j) == before.finger(p, j)
            || (before.finger(p, j) == Some(d) && after.finger(p, j) == before.successor(d))
    &&& forall|p: u8| #[trigger]
        after.keys(p) == (if p == d {
            Map::<u8, Option<u8>>::empty()
        } else if p == before.successor(d)->0 {
            before.keys(p).union_prefer_right(before.keys(d))
        } else {
            before.keys(p)
        })
    &&& forall|p: u8| #[trigger] after.lookup_info(p) == before.lookup_info(p)
}

/// The leave of a member of a sound ring that has another member
/// succeeds, with one record for each key of the leaving peer, and leaves the
/// other members linked, with every key at its owner.
pub proof fn lemma_leave_of_one(rv: RingView, d: u8, other: u8)
    requires
        ring_ok(rv),
        rv.is_member(d),
        rv.is_member(other),
        other != d,
    ensures
        leave_result(rv, d).1 == Ok::<Seq<Seq<char>>, ChordError>(
            migration_lines(rv.keys(d).dom(), d, rv.successor(d)->0, 256),
        ),
        left_ring(leave_result(rv, d).0, rv, d),
{
    let ms = rv.members();
    let rest = ms.remove(d);
    lemma_leave_links(rv, ms, d, other);
    lemma_leave_steps(rv, d, other);
    let s = rv.successor(d)->0;
    let p0 = rv.predecessor(d)->0;
    let moved = leave_moved(rv, d);
    let patched = leave_patched(rv, d);
    let out = leave_result(rv, d).0;
    lemma_with_state(patched, d, NodeState::Detached);
    assert(out.wf());
    assert(patched.members() =~= ms) by {
        assert forall|p: u8| patched.is_member(p) == rv.is_member(p) by {
            assert(patched.state(p) == moved.state(p));
            assert(moved.state(p) == rv.state(p));
        }
    }
    lemma_leave_round_state(patched, moved, rest, d, s, p0, 9);
    assert forall|p: u8, j: int| 1 <= j <= 8 implies #[trigger] out.finger(p, j) == patched.finger(
        p,
        j,
    ) by {}
    assert forall|p: u8| rest.contains(p) implies (#[trigger] out.successor(p)) is Some
        && is_successor_of(rest, ring_add(p, 1), out.successor(p)->0) by {
        assert(out.finger(p, 1) == patched.finger(p, 1));
        assert(patched.successor(p) is Some);
    }
    assert forall|p: u8| rest.contains(p) implies (#[trigger] out.predecessor(p)) is Some
        && rest.contains(out.predecessor(p)->0) && is_successor_of(
        rest,
        ring_add(out.predecessor(p)->0, 1),
        p,
    ) by {
        assert(out.predecessor(p) == patched.predecessor(p));
    }
    assert forall|p: u8| #[trigger] out.keys(p) == moved.keys(p) by {
        assert(out.keys(p) == patched.keys(p));
        assert(patched.keys(p) == moved.keys(p));
    }
    assert forall|p: u8, k: u8| #[trigger] out.keys(p).contains_key(k) implies is_successor_of(
        rest,
        k,
        p,
    ) by {
        assert(out.keys(p) == moved.keys(p));
        assert(moved.keys(p).contains_key(k));
    }
    assert forall|p: u8, j: int| rest.contains(p) && 1 <= j <= 8 implies #[trigger] out.finger(
        p,
        j,
    ) == rv.finger(p, j) || (rv.finger(p, j) == Some(d) && out.finger(p, j) == rv.successor(
        d,
    )) by {
        assert(out.finger(p, j) == patched.finger(p, j));
        assert(finger_kept_or_left(patched, moved, rest, d, s, j));
        assert(patched.finger(p, j) == moved.finger(p, j) || (moved.finger(p, j) == Some(d)
            && patched.finger(p, j) == Some(s)));
        assert(moved.finger(p, j) == (if p == p0 && j == 1 {
            Some(s)
        } else {
            rv.finger(p, j)
        }));
        if p == p0 && j == 1 {
            assert(rv.successor(p0) is Some);
            lemma_successor_unique(ms, ring_add(p0, 1), d, rv.successor(p0)->0);
        }
    }
    assert forall|p: u8| #[trigger] out.lookup_info(p) == rv.lookup_info(p) by {
        assert(out.lookup_info(p) == patched.lookup_info(p));
        assert(patched.lookup_info(p) == moved.lookup_info(p));
    }
}

/// The leave of the only member of a sound ring succeeds and leaves a
/// store without members and without keys.
pub proof fn lemma_leave_of_last(rv: RingView, d: u8)
    requires
        ring_ok(rv),
        rv.is_member(d),
        forall|p: u8| rv.is_member(p) ==> p == d,
    ensures
        rv.successor(d) == Some(d),
        rv.predecessor(d) == Some(d),
        leave_result(rv, d).1 == Ok::<Seq<Seq<char>>, ChordError>(
            migration_lines(rv.keys(d).dom(), d, d, 256),
        ),
        left_ring(leave_result(rv, d).0, rv, d),
        forall|p: u8| !leave_result(rv, d).0.is_member(p),
        ring_exact(leave_result(rv, d).0),
{
    let ms = rv.members();
    assert(ms.contains(d));
    assert(rv.successor(d) is Some && ms.contains(rv.successor(d)->0));
    assert(rv.predecessor(d) is Some && ms.contains(rv.predecessor(d)->0));
    assert(rv.is_member(rv.successor(d)->0));
    assert(rv.is_member(rv.predecessor(d)->0));
    let l1 = rv.with_predecessor(d, Some(d));
    lemma_with_predecessor(rv, d, Some(d));
    let l2 = l1.with_finger(d, 1, Some(d));
    lemma_with_finger(l1, d, 1, Some(d));
    assert(l2 == leave_linked(rv, d));
    assert(l2.successor(d) == Some(d));
    assert(l2.keys(d) == rv.keys(d)) by {
        assert(l2.keys(d) == l1.keys(d));
    }
    let ks = l2.keys(d).dom();
    let given = l2.with_keys(d, l2.keys(d).union_prefer_right(l2.keys(d).restrict(ks)));
    lemma_with_keys(l2, d, l2.keys(d).union_prefer_right(l2.keys(d).restrict(ks)));
    let moved = given.with_keys(d, given.keys(d).remove_keys(ks));
    lemma_with_keys(given, d, given.keys(d).remove_keys(ks));
    assert(moved == leave_moved(rv, d));
    assert(moved.keys(d) =~= Map::<u8, Option<u8>>::empty());
    assert(moved.successor(d) == Some(d)) by {
        assert(moved.finger(d, 1) == given.finger(d, 1));
        assert(given.finger(d, 1) == l2.finger(d, 1));
    }
    lemma_last_rounds(moved, d, 1);
    let out = leave_result(rv, d).0;
    assert(out == moved.with_state(d, NodeState::Detached));
    lemma_with_state(moved, d, NodeState::Detached);
    let rest = ms.remove(d);
    assert forall|p: u8| !out.is_member(p) by {
        if p != d {
            assert(out.state(p) == moved.state(p));
            assert(moved.state(p) == given.state(p));
            assert(given.state(p) == l2.state(p));
            assert(l2.state(p) == l1.state(p));
            assert(l1.state(p) == rv.state(p));
            assert(!rv.is_member(p));
        }
    }
    assert(out.members() =~= rest);
    assert(out.members() =~= Set::<u8>::empty());
    assert forall|p: u8| #[trigger]
        out.keys(p) == (if p == d {
            Map::<u8, Option<u8>>::empty()
        } else {
            rv.keys(p)
        }) by {
        assert(out.keys(p) == moved.keys(p));
        if p != d {
            assert(moved.keys(p) == given.keys(p));
            assert(given.keys(p) == l2.keys(p));
            assert(l2.keys(p) == l1.keys(p));
        }
    }
    assert forall|p: u8, k: u8| #[trigger] out.keys(p).contains_key(k) implies is_successor_of(
        rest,
        k,
        p,
    ) by {
        assert(rv.keys(p).contains_key(k));
        assert(is_successor_of(ms, k, p));
        assert(rv.is_member(p));
    }
    assert forall|p: u8| #[trigger] out.lookup_info(p) == rv.lookup_info(p) by {
        assert(out.lookup_info(p) == moved.lookup_info(p));
        assert(moved.lookup_info(p) == given.lookup_info(p));
        assert(given.lookup_info(p) == l2.lookup_info(p));
        assert(l2.lookup_info(p) == l1.lookup_info(p));
    }
}

/// For a peer that is its own successor, `update_others_leave` changes
/// nothing.
pub proof fn lemma_last_rounds(rv: RingView, d: u8, i: int)
    requires
        rv.wf(),
        1 <= i <= 9,
        rv.successor(d) == Some(d),
    ensures
        update_others_leave_from(rv, d, i) == (rv, Ok::<(), ChordError>(())),
    decreases 9 - i,
{
    if i <= 8 {
        let t = finger_origin(d, i);
        assert(right_closed(t, d, d));
        assert(find_predecessor_walk(rv, d, t) == Ok::<u8, ChordError>(d));
        assert(update_finger_table_leave_chain(rv, d, d, i, d) == (rv, Ok::<(), ChordError>(())));
        lemma_last_rounds(rv, d, i + 1);
    }
}

/// The repair after the leave of `d` passes by no peer: for no finger
/// from 2 on is there a peer that it passes by.
pub open spec fn leave_repairs_all(rv: RingView, d: u8) -> bool {
    forall|i: int|
        2 <= i <= 8 ==> !#[trigger] stale_at(
            rv.members().remove(d),
            d,
            rv.successor(d)->0,
            rv.predecessor(d)->0,
            i,
        )
}

/// After the leave of a member `d` of a ring with exact fingers that has
/// another member, each finger from 2 on of each other member is the
/// successor of `d` where it was `d`, but for the peers that the repair
/// passes by; each other finger is what it was.
pub proof fn lemma_leave_fingers(rv: RingView, d: u8, other: u8)
    requires
        ring_exact(rv),
        rv.is_member(d),
        rv.is_member(other),
        other != d,
    ensures
        forall|x: u8, j: int|
            rv.members().remove(d).contains(x) && 2 <= j <= 8 ==> #[trigger] leave_result(
                rv,
                d,
            ).0.finger(x, j) == (if rv.finger(x, j) == Some(d) && !(x == finger_origin(d, j)
                && stale_at(
                rv.members().remove(d),
                d,
                rv.successor(d)->0,
                rv.predecessor(d)->0,
                j,
            )) {
                rv.successor(d)
            } else {
                rv.finger(x, j)
            }),
{
    let ms = rv.members();
    let rest = ms.remove(d);
    lemma_leave_links(rv, ms, d, other);
    lemma_leave_steps(rv, d, other);
    let s = rv.successor(d)->0;
    let p0 = rv.predecessor(d)->0;
    let moved = leave_moved(rv, d);
    let patched = leave_patched(rv, d);
    let out = leave_result(rv, d).0;
    lemma_with_state(patched, d, NodeState::Detached);
    assert(rest.insert(d) =~= ms);
    assert forall|x: u8, j: int| rest.contains(x) && 2 <= j <= 8 implies #[trigger] out.finger(
        x,
        j,
    ) == (if rv.finger(x, j) == Some(d) && !(x == finger_origin(d, j) && stale_at(
        rest,
        d,
        s,
        p0,
        j,
    )) {
        rv.successor(d)
    } else {
        rv.finger(x, j)
    }) by {
        assert(out.finger(x, j) == patched.finger(x, j));
        assert(finger_exact_for(moved, ms, ms, j)) by {
            assert forall|p: u8| ms.contains(p) implies (#[trigger] moved.finger(p, j)) is Some
                && is_successor_of(ms, spec_finger_start(p, j), moved.finger(p, j)->0) by {
                assert(moved.finger(p, j) == rv.finger(p, j));
                assert(rv.finger(p, j) is Some);
            }
        }
        assert(finger_left_at(patched, moved, rest, d, s, p0, j));
        assert(moved.finger(x, j) == rv.finger(x, j));
    }
}

/// The leave of a member of a ring with exact fingers leaves a sound ring,
/// and one with exact fingers, if and only if the repair passes by no peer.
pub proof fn lemma_leave_keeps_exact(rv: RingView, d: u8)
    requires
        ring_exact(rv),
        rv.is_member(d),
    ensures
        ring_exact(leave_result(rv, d).0) <==> leave_repairs_all(rv, d),
        ring_ok(leave_result(rv, d).0) <==> leave_repairs_all(rv, d),
{
    let ms = rv.members();
    let rest = ms.remove(d);
    let out = leave_result(rv, d).0;
    if exists|x: u8| rv.is_member(x) && x != d {
        let other = choose|x: u8| rv.is_member(x) && x != d;
        lemma_leave_links(rv, ms, d, other);
        lemma_leave_of_one(rv, d, other);
        lemma_leave_fingers(rv, d, other);
        let s = rv.successor(d)->0;
        let p0 = rv.predecessor(d)->0;
        if leave_repairs_all(rv, d) {
            assert forall|p: u8, j: int| rest.contains(p) && 1 <= j <= 8 implies (
            #[trigger] out.finger(p, j)) is Some && is_successor_of(
                rest,
                spec_finger_start(p, j),
                out.finger(p, j)->0,
            ) by {
                if j == 1 {
                    lemma_finger_start_dist(p, 1);
                    assert(out.successor(p) is Some);
                } else {
                    assert(!stale_at(rest, d, s, p0, j));
                    assert(ms.contains(p));
                    assert(rv.finger(p, j) is Some);
                    lemma_successor_after_remove(
                        ms,
                        d,
                        s,
                        spec_finger_start(p, j),
                        rv.finger(p, j)->0,
                    );
                }
            }
            assert(fingers_exact(out, rest));
            assert(fingers_inside(out, rest)) by {
                assert forall|p: u8, j: int| rest.contains(p) && 1 <= j <= 8 implies (
                #[trigger] out.finger(p, j)) is Some && rest.contains(out.finger(p, j)->0) by {}
            }
        } else {
            let i = choose|i: int| 2 <= i <= 8 && #[trigger] stale_at(rest, d, s, p0, i);
            let t = finger_origin(d, i);
            assert(rest.contains(t));
            assert(ms.contains(t));
            assert(rv.finger(t, i) is Some);
            lemma_finger_start_dist(d, i);
            lemma_finger_at_leaver(ms, d, t, i, rv.finger(t, i)->0);
            assert(out.finger(t, i) == Some(d));
            assert(!rest.contains(d));
            if fingers_inside(out, rest) {
                assert(rest.contains(out.finger(t, i)->0));
            }
        }
    } else {
        lemma_leave_of_last(rv, d);
        assert(rest =~= Set::<u8>::empty()) by {
            assert forall|x: u8| !rest.contains(x) by {
                if rest.contains(x) {
                    assert(rv.is_member(x) && x != d);
                }
            }
        }
    }
}

/// The leave of a member of a sound ring succeeds, with one record for
/// each key of the leaving peer, and leaves the other members linked, with
/// every key at its owner.
pub proof fn lemma_leave_on_ring(rv: RingView, d: u8)
    requires
        ring_ok(rv),
        rv.is_member(d),
    ensures
        rv.successor(d) is Some,
        leave_result(rv, d).1 == Ok::<Seq<Seq<char>>, ChordError>(
            migration_lines(rv.keys(d).dom(), d, rv.successor(d)->0, 256),
        ),
        left_ring(leave_result(rv, d).0, rv, d),
{
    if exists|x: u8| rv.is_member(x) && x != d {
        let other = choose|x: u8| rv.is_member(x) && x != d;
        lemma_leave_links(rv, rv.members(), d, other);
        lemma_leave_of_one(rv, d, other);
    } else {
        lemma_leave_of_last(rv, d);
    }
}

} // verus!
