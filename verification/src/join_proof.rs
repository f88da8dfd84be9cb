//! Why a join keeps a ring sound: the new peer is linked between its
//! neighbours, every finger of another peer that should point at it is
//! patched, and the keys that it owns move to it.

use vstd::prelude::*;
use crate::frame::{lemma_with_finger, same_but_fingers, same_fingers_at};
use crate::frame::{lemma_with_keys, lemma_with_predecessor, lemma_with_state, same_all_fingers};
use crate::join::{
    bootstrap, finger_origin, fingers_matching, first_failed_lookup, init_finger_table_result,
    init_fingers_from, join_result, keys_to_take, lemma_patch_changes_count,
    transfer_keys_result, update_finger_table_chain, update_others_from,
};
use crate::keys::{migration_lines, move_keys};
use crate::model::NodeState;
use crate::model::{ChordError, RingView};
use crate::ring::{
    is_successor_of, keys_placed, lemma_lookup_finds_owner, lemma_links_carry_over,
    lemma_members_closed, lemma_same_fingers_same_walk, lemma_successor_unique, lemma_walk_stays,
    links_ok, ring_exact, ring_ok, same_fingers, walk_closed,
};
use crate::routing::find_successor_walk;
use crate::ring_math::right_closed;
use crate::routing::find_predecessor_walk;
use crate::ring_math::{
    in_open_interval, left_closed, lemma_finger_start_dist, lemma_two_pow_values, ring_add,
    ring_dist, spec_finger_start, two_pow,
};

verus! {

/// The successor of `k` once `n` is a member too: `n` where it comes
/// before the old successor on the way from `k`, and else the old successor.
pub open spec fn successor_with(k: u8, n: u8, f: u8) -> u8 {
    if ring_dist(k, n) < ring_dist(k, f) {
        n
    } else {
        f
    }
}

/// The successor of an identifier among the members and `n` is what
/// `successor_with` says.
pub proof fn lemma_successor_after_insert(ms: Set<u8>, n: u8, k: u8, f: u8)
    requires
        is_successor_of(ms, k, f),
    ensures
        is_successor_of(ms.insert(n), k, successor_with(k, n, f)),
{
    let after = ms.insert(n);
    let g = successor_with(k, n, f);
    assert forall|x: u8| #[trigger] after.contains(x) implies ring_dist(k, g) <= ring_dist(k, x) by {
        if x != n {
            assert(ms.contains(x));
        }
    }
}

/// The new peer `n` reuses a finger: where `g`, another peer, is the
/// successor of the start of finger `i` of `n` and the start of finger `i + 1`
/// lies in `[n, g)`, `g` is the successor of that start too.
pub proof fn lemma_reused_finger(ms: Set<u8>, n: u8, i: int, g: u8)
    requires
        1 <= i <= 7,
        g != n,
        is_successor_of(ms, spec_finger_start(n, i), g),
        left_closed(spec_finger_start(n, i + 1), n, g),
    ensures
        is_successor_of(ms, spec_finger_start(n, i + 1), g),
{
    lemma_finger_start_dist(n, i);
    lemma_finger_start_dist(n, i + 1);
    let a = spec_finger_start(n, i);
    let b = spec_finger_start(n, i + 1);
    assert forall|x: u8| #[trigger] ms.contains(x) implies ring_dist(b, g) <= ring_dist(b, x) by {
        assert(ring_dist(a, g) <= ring_dist(a, x));
        lemma_reused_finger_arith(n, a, b, g, x, two_pow((i - 1) as nat) as int);
    }
}

proof fn lemma_reused_finger_arith(n: u8, a: u8, b: u8, g: u8, x: u8, w: int)
    requires
        1 <= w <= 64,
        g != n,
        ring_dist(n, a) == w,
        ring_dist(n, b) == 2 * w,
        left_closed(b, n, g),
        ring_dist(a, g) <= ring_dist(a, x),
    ensures
        ring_dist(b, g) <= ring_dist(b, x),
{
}

/// At a member `p` that lies at least `2^(i-1)` before the new peer `n`
/// and whose finger `i` is exact, `update_finger_table` patches the finger if
/// and only if `n` comes before the finger on the way from its start.
pub proof fn lemma_patch_condition(ms: Set<u8>, n: u8, p: u8, i: int, f: u8)
    requires
        1 <= i <= 8,
        ms.contains(p),
        !ms.contains(n),
        is_successor_of(ms, spec_finger_start(p, i), f),
        ring_dist(p, n) >= two_pow((i - 1) as nat),
    ensures
        (n != p && left_closed(n, p, f)) <==> successor_with(spec_finger_start(p, i), n, f) == n,
{
    lemma_finger_start_dist(p, i);
    let a = spec_finger_start(p, i);
    assert(ring_dist(a, f) <= ring_dist(a, p));
    lemma_patch_condition_arith(n, p, a, f, two_pow((i - 1) as nat) as int);
}

proof fn lemma_patch_condition_arith(n: u8, p: u8, a: u8, f: u8, w: int)
    requires
        1 <= w <= 128,
        n != p,
        n != f,
        ring_dist(p, a) == w,
        ring_dist(p, n) >= w,
        ring_dist(a, f) <= ring_dist(a, p),
    ensures
        left_closed(n, p, f) <==> ring_dist(a, n) < ring_dist(a, f),
{
}

/// A member that lies less than `2^(i-1)` before the new peer `n` keeps
/// its exact finger `i`: some member comes before `n` on the way from the
/// start of the finger.
pub proof fn lemma_near_keeps_finger(ms: Set<u8>, n: u8, p: u8, i: int, f: u8)
    requires
        1 <= i <= 8,
        ms.contains(p),
        !ms.contains(n),
        is_successor_of(ms, spec_finger_start(p, i), f),
        ring_dist(p, n) < two_pow((i - 1) as nat),
    ensures
        successor_with(spec_finger_start(p, i), n, f) == f,
{
    lemma_finger_start_dist(p, i);
    let a = spec_finger_start(p, i);
    assert(ring_dist(a, f) <= ring_dist(a, p));
    lemma_near_keeps_finger_arith(n, p, a, f, two_pow((i - 1) as nat) as int);
}

proof fn lemma_near_keeps_finger_arith(n: u8, p: u8, a: u8, f: u8, w: int)
    requires
        1 <= w <= 128,
        n != p,
        ring_dist(p, a) == w,
        ring_dist(p, n) < w,
        ring_dist(a, f) <= ring_dist(a, p),
    ensures
        ring_dist(a, n) >= ring_dist(a, f),
{
}

/// Behind a member that keeps its exact finger `i`, every member keeps
/// it: where `cur` lies at least `2^(i-1)` before the new peer `n` and keeps
/// its finger, so does `p`, which lies at least as far before `n`.
pub proof fn lemma_farther_keeps_finger(
    ms: Set<u8>,
    n: u8,
    i: int,
    cur: u8,
    fcur: u8,
    p: u8,
    fp: u8,
)
    requires
        1 <= i <= 8,
        ms.contains(cur),
        ms.contains(p),
        !ms.contains(n),
        is_successor_of(ms, spec_finger_start(cur, i), fcur),
        is_successor_of(ms, spec_finger_start(p, i), fp),
        ring_dist(cur, n) >= two_pow((i - 1) as nat),
        ring_dist(p, n) >= ring_dist(cur, n),
        successor_with(spec_finger_start(cur, i), n, fcur) == fcur,
    ensures
        successor_with(spec_finger_start(p, i), n, fp) == fp,
{
    lemma_finger_start_dist(cur, i);
    lemma_finger_start_dist(p, i);
    let a = spec_finger_start(cur, i);
    let b = spec_finger_start(p, i);
    assert(ms.contains(fcur));
    assert(ring_dist(b, fp) <= ring_dist(b, fcur));
    lemma_farther_keeps_finger_arith(n, cur, p, a, b, fcur, fp, two_pow((i - 1) as nat) as int);
}

proof fn lemma_farther_keeps_finger_arith(
    n: u8,
    cur: u8,
    p: u8,
    a: u8,
    b: u8,
    fcur: u8,
    fp: u8,
    w: int,
)
    requires
        1 <= w <= 128,
        fcur != n,
        ring_dist(cur, a) == w,
        ring_dist(p, b) == w,
        ring_dist(cur, n) >= w,
        ring_dist(p, n) >= ring_dist(cur, n),
        ring_dist(a, n) >= ring_dist(a, fcur),
        ring_dist(b, fp) <= ring_dist(b, fcur),
    ensures
        ring_dist(b, n) >= ring_dist(b, fp),
{
}

/// The predecessors while `n` joins the peers `ms` in front of `s`: `n` is
/// the predecessor of `s`, and every other peer of `ms` has the peer of `ms`
/// before it.
pub open spec fn predecessors_joining(rv: RingView, ms: Set<u8>, n: u8, s: u8) -> bool {
    &&& !ms.contains(n)
    &&& ms.contains(s)
    &&& is_successor_of(ms, ring_add(n, 1), s)
    &&& rv.predecessor(s) == Some(n)
    &&& forall|p: u8|
        ms.contains(p) && p != s ==> (#[trigger] rv.predecessor(p)) is Some && ms.contains(
            rv.predecessor(p)->0,
        ) && is_successor_of(ms, ring_add(rv.predecessor(p)->0, 1), p)
}

/// Finger `i` of every peer of `ms` is exact among `ms`.
pub open spec fn finger_exact_at(rv: RingView, ms: Set<u8>, i: int) -> bool {
    forall|p: u8|
        ms.contains(p) ==> (#[trigger] rv.finger(p, i)) is Some && is_successor_of(
            ms,
            spec_finger_start(p, i),
            rv.finger(p, i)->0,
        )
}

/// Finger `i` of every peer of `ms` is what it has to be once `n` has
/// joined: in `after`, each peer of `ms` has `n` where `n` comes before its
/// finger of `before` on the way from the start, and else that finger.
pub open spec fn finger_patched_at(
    after: RingView,
    before: RingView,
    ms: Set<u8>,
    n: u8,
    i: int,
) -> bool {
    forall|p: u8|
        ms.contains(p) ==> #[trigger] after.finger(p, i) == Some(
            successor_with(spec_finger_start(p, i), n, before.finger(p, i)->0),
        )
}

/// How far the patching of finger `i` has come while it goes back from
/// peer to peer: the peers of `ms` that lie at least `2^(i-1)` and less than
/// `bound` before `n` have `n` as their finger, rightly; every other peer has
/// the finger it had.
pub open spec fn patched_up_to(
    rv: RingView,
    base: RingView,
    ms: Set<u8>,
    n: u8,
    i: int,
    bound: int,
) -> bool {
    &&& forall|p: u8|
        ms.contains(p) && two_pow((i - 1) as nat) <= ring_dist(p, n) < bound ==> #[trigger] rv.finger(
            p,
            i,
        ) == Some(n) && successor_with(spec_finger_start(p, i), n, base.finger(p, i)->0) == n
    &&& forall|p: u8|
        !(ms.contains(p) && two_pow((i - 1) as nat) <= ring_dist(p, n) < bound)
            ==> #[trigger] rv.finger(p, i) == base.finger(p, i)
}

/// The peer before a peer `cur` other than `s` lies farther before `n`,
/// with no peer between the two.
pub proof fn lemma_back_one_arith(n: u8, s: u8, q: u8, cur: u8, x: u8)
    requires
        n != q,
        n != cur,
        n != x,
        n != s,
        cur != s,
        ring_dist(ring_add(q, 1), cur) <= ring_dist(ring_add(q, 1), x),
        ring_dist(ring_add(q, 1), cur) <= ring_dist(ring_add(q, 1), s),
        ring_dist(ring_add(n, 1), s) <= ring_dist(ring_add(n, 1), cur),
        ring_dist(ring_add(n, 1), s) <= ring_dist(ring_add(n, 1), q),
    ensures
        ring_dist(q, n) > ring_dist(cur, n),
        !(ring_dist(cur, n) < ring_dist(x, n) < ring_dist(q, n)),
        ring_dist(x, n) == ring_dist(cur, n) ==> x == cur,
{
}

/// No peer lies farther before `n` than the successor of `n`.
pub proof fn lemma_successor_is_farthest(ms: Set<u8>, n: u8, s: u8)
    requires
        !ms.contains(n),
        is_successor_of(ms, ring_add(n, 1), s),
    ensures
        forall|x: u8| #[trigger] ms.contains(x) ==> 1 <= ring_dist(x, n) <= ring_dist(s, n) && (
        ring_dist(x, n) == ring_dist(s, n) ==> x == s),
{
    assert forall|x: u8| #[trigger] ms.contains(x) implies 1 <= ring_dist(x, n) <= ring_dist(s, n)
        && (ring_dist(x, n) == ring_dist(s, n) ==> x == s) by {
        assert(ring_dist(ring_add(n, 1), s) <= ring_dist(ring_add(n, 1), x));
    }
}

/// From a peer on, going back from peer to peer, `update_finger_table`
/// patches finger `i` of exactly the peers of `ms` that have to point at the
/// new peer `n`, and succeeds.
pub proof fn lemma_chain_patches(
    rv: RingView,
    base: RingView,
    ms: Set<u8>,
    n: u8,
    s: u8,
    i: int,
    cur: u8,
    bound: int,
)
    requires
        1 <= i <= 8,
        rv.wf(),
        base.wf(),
        predecessors_joining(base, ms, n, s),
        finger_exact_at(base, ms, i),
        same_but_fingers(rv, base),
        forall|j: int| 1 <= j <= 8 && j != i ==> same_fingers_at(rv, base, j),
        patched_up_to(rv, base, ms, n, i, bound),
        cur == n ==> bound == 256,
        cur != n ==> ms.contains(cur) && bound == ring_dist(cur, n) && two_pow((i - 1) as nat)
            <= ring_dist(cur, n),
    ensures
        update_finger_table_chain(rv, cur, n, i).1 == Ok::<(), ChordError>(()),
        update_finger_table_chain(rv, cur, n, i).0.wf(),
        same_but_fingers(update_finger_table_chain(rv, cur, n, i).0, base),
        forall|j: int|
            1 <= j <= 8 && j != i ==> same_fingers_at(
                update_finger_table_chain(rv, cur, n, i).0,
                base,
                j,
            ),
        forall|p: u8|
            !ms.contains(p) ==> #[trigger] update_finger_table_chain(rv, cur, n, i).0.finger(p, i)
                == base.finger(p, i),
        finger_patched_at(update_finger_table_chain(rv, cur, n, i).0, base, ms, n, i),
    decreases 256 - fingers_matching(rv, i, Some(n), 256),
{
    lemma_finger_start_dist(n, i);
    lemma_successor_is_farthest(ms, n, s);
    let w = two_pow((i - 1) as nat) as int;
    if cur == n {
        assert forall|p: u8| ms.contains(p) implies #[trigger] rv.finger(p, i) == Some(
            successor_with(spec_finger_start(p, i), n, base.finger(p, i)->0),
        ) by {
            assert(base.finger(p, i) is Some);
            if ring_dist(p, n) < w {
                lemma_near_keeps_finger(ms, n, p, i, base.finger(p, i)->0);
            }
        }
    } else {
        assert(rv.finger(cur, i) == base.finger(cur, i));
        assert(base.finger(cur, i) is Some);
        let f = rv.finger(cur, i)->0;
        lemma_patch_condition(ms, n, cur, i, f);
        if left_closed(n, cur, f) {
            let patched = rv.with_finger(cur, i, Some(n));
            lemma_with_finger(rv, cur, i, Some(n));
            lemma_patch_changes_count(rv, cur, i, Some(n), Some(n), 256);
            assert(rv.predecessor(cur) == base.predecessor(cur));
            assert(patched.predecessor(cur) == rv.predecessor(cur));
            assert(same_but_fingers(patched, base));
            assert forall|j: int| 1 <= j <= 8 && j != i implies same_fingers_at(
                patched,
                base,
                j,
            ) by {
                assert(same_fingers_at(rv, base, j));
                assert forall|p: u8| #[trigger] patched.finger(p, j) == base.finger(p, j) by {
                    assert(rv.finger(p, j) == base.finger(p, j));
                }
            }
            if cur == s {
                assert(patched.predecessor(cur) == Some(n));
                assert(patched_up_to(patched, base, ms, n, i, 256)) by {
                    assert forall|p: u8|
                        ms.contains(p) && w <= ring_dist(p, n) < 256 implies #[trigger] patched.finger(
                        p,
                        i,
                    ) == Some(n) && successor_with(
                        spec_finger_start(p, i),
                        n,
                        base.finger(p, i)->0,
                    ) == n by {
                        if p != cur {
                            assert(rv.finger(p, i) == Some(n));
                        }
                    }
                    assert forall|p: u8|
                        !(ms.contains(p) && w <= ring_dist(p, n) < 256) implies #[trigger] patched.finger(
                        p,
                        i,
                    ) == base.finger(p, i) by {
                        assert(rv.finger(p, i) == base.finger(p, i));
                    }
                }
                lemma_chain_patches(patched, base, ms, n, s, i, n, 256);
            } else {
                let q = base.predecessor(cur)->0;
                assert(base.predecessor(cur) is Some);
                assert(ms.contains(q));
                assert(ring_dist(ring_add(q, 1), cur) <= ring_dist(ring_add(q, 1), s));
                assert(ring_dist(ring_add(n, 1), s) <= ring_dist(ring_add(n, 1), cur));
                assert(ring_dist(ring_add(n, 1), s) <= ring_dist(ring_add(n, 1), q));
                lemma_back_one_arith(n, s, q, cur, cur);
                let next_bound = ring_dist(q, n);
                assert(patched_up_to(patched, base, ms, n, i, next_bound)) by {
                    assert forall|p: u8|
                        ms.contains(p) && w <= ring_dist(p, n) < next_bound implies #[trigger] patched.finger(
                        p,
                        i,
                    ) == Some(n) && successor_with(
                        spec_finger_start(p, i),
                        n,
                        base.finger(p, i)->0,
                    ) == n by {
                        assert(ring_dist(ring_add(q, 1), cur) <= ring_dist(ring_add(q, 1), p));
                        lemma_back_one_arith(n, s, q, cur, p);
                        if p != cur {
                            assert(rv.finger(p, i) == Some(n));
                        }
                    }
                    assert forall|p: u8|
                        !(ms.contains(p) && w <= ring_dist(p, n) < next_bound) implies #[trigger] patched.finger(
                        p,
                        i,
                    ) == base.finger(p, i) by {
                        assert(rv.finger(p, i) == base.finger(p, i));
                    }
                }
                lemma_chain_patches(patched, base, ms, n, s, i, q, next_bound);
            }
        } else {
            assert forall|p: u8| ms.contains(p) implies #[trigger] rv.finger(p, i) == Some(
                successor_with(spec_finger_start(p, i), n, base.finger(p, i)->0),
            ) by {
                assert(base.finger(p, i) is Some);
                if ring_dist(p, n) < w {
                    lemma_near_keeps_finger(ms, n, p, i, base.finger(p, i)->0);
                } else if ring_dist(p, n) >= bound {
                    lemma_farther_keeps_finger(ms, n, i, cur, f, p, base.finger(p, i)->0);
                }
            }
        }
    }
}

/// What a lookup needs while `n` joins the peers `ms` in front of `s`: `s`
/// is the successor of `n`, the fingers of all these peers stay among them,
/// and the successor of each peer of `ms` is exact, be it with or without
/// `n`.
pub open spec fn successors_joining(rv: RingView, ms: Set<u8>, n: u8, s: u8) -> bool {
    &&& rv.successor(n) == Some(s)
    &&& forall|p: u8, j: int|
        ms.insert(n).contains(p) && 1 <= j <= 8 ==> (#[trigger] rv.finger(p, j)) is Some
            && ms.insert(n).contains(rv.finger(p, j)->0)
    &&& forall|p: u8|
        ms.contains(p) ==> (#[trigger] rv.successor(p)) is Some && (is_successor_of(
            ms,
            ring_add(p, 1),
            rv.successor(p)->0,
        ) || is_successor_of(ms.insert(n), ring_add(p, 1), rv.successor(p)->0))
}

/// The peer from which finger `i` is patched for the new peer `n`: the
/// peer at which the lookup of the identifier `2^(i-1)` before `n` ends, or
/// its successor where that is the identifier itself.
pub open spec fn first_to_patch(rv: RingView, n: u8, i: int) -> u8 {
    let t = finger_origin(n, i);
    let p = find_predecessor_walk(rv, n, t)->Ok_0;
    if rv.successor(p) == Some(t) {
        t
    } else {
        p
    }
}

/// Where the lookup of `t`, which lies `w` before `n`, ends at `n` itself,
/// whose successor is `s`: either `t` is `s`, or every peer that is no farther
/// before `n` than `s` lies less than `w` before `n`.
pub proof fn lemma_lookup_ends_at_start(n: u8, s: u8, t: u8, x: u8, w: int)
    requires
        1 <= w <= 128,
        n != s,
        n != x,
        ring_dist(t, n) == w,
        right_closed(t, n, s),
        ring_dist(x, n) <= ring_dist(s, n),
    ensures
        t == s ==> ring_dist(s, n) == w,
        t != s ==> ring_dist(x, n) < w,
{
}

/// Where the lookup of `t`, which lies `w` before `n`, ends at a peer `p`
/// strictly inside `(n, t)`, whose successor is `ps`: `p` lies more than `w`
/// before `n`, and a peer `x` that comes no earlier than `ps` after `p` and
/// lies at least `w` before `n` lies at least as far before `n` as `p`, unless
/// `t` is `ps`.
pub proof fn lemma_lookup_ends_at_member(n: u8, t: u8, p: u8, ps: u8, x: u8, w: int)
    requires
        1 <= w <= 128,
        n != x,
        n != p,
        ring_dist(t, n) == w,
        in_open_interval(p, n, t),
        right_closed(t, p, ps),
        ring_dist(ring_add(p, 1), ps) <= ring_dist(ring_add(p, 1), x),
        ring_dist(x, n) >= w,
    ensures
        ring_dist(p, n) > w,
        t != ps ==> ring_dist(x, n) >= ring_dist(p, n),
{
}

/// The peer from which finger `i` is patched is the peer of `ms` that
/// lies nearest before `n` among those at least `2^(i-1)` before `n`; it is
/// `n` itself where no peer lies that far.
pub proof fn lemma_first_to_patch(rv: RingView, ms: Set<u8>, n: u8, s: u8, i: int)
    requires
        1 <= i <= 8,
        !ms.contains(n),
        is_successor_of(ms, ring_add(n, 1), s),
        successors_joining(rv, ms, n, s),
    ensures
        find_predecessor_walk(rv, n, finger_origin(n, i)) is Ok,
        rv.successor(find_predecessor_walk(rv, n, finger_origin(n, i))->Ok_0) is Some,
        first_to_patch(rv, n, i) == n ==> forall|x: u8| #[trigger]
            ms.contains(x) ==> ring_dist(x, n) < two_pow((i - 1) as nat),
        first_to_patch(rv, n, i) != n ==> ms.contains(first_to_patch(rv, n, i)) && ring_dist(
            first_to_patch(rv, n, i),
            n,
        ) >= two_pow((i - 1) as nat) && forall|x: u8| #[trigger]
            ms.contains(x) && ring_dist(x, n) >= two_pow((i - 1) as nat) ==> ring_dist(x, n)
                >= ring_dist(first_to_patch(rv, n, i), n),
{
    lemma_finger_start_dist(n, i);
    lemma_successor_is_farthest(ms, n, s);
    let w = two_pow((i - 1) as nat) as int;
    let t = finger_origin(n, i);
    let all = ms.insert(n);
    assert(walk_closed(rv, all)) by {
        assert forall|p: u8| all.contains(p) implies (#[trigger] rv.successor(p)) is Some by {
            assert(rv.finger(p, 1) is Some);
        }
    }
    lemma_walk_stays(rv, all, n, t);
    let p = find_predecessor_walk(rv, n, t)->Ok_0;
    let ps = rv.successor(p)->0;
    let first = first_to_patch(rv, n, i);
    assert(ring_dist(t, n) == w);
    if p == n {
        assert(ps == s);
        assert forall|x: u8| #[trigger] ms.contains(x) implies (t == s ==> ring_dist(s, n) == w)
            && (t != s ==> ring_dist(x, n) < w) by {
            lemma_lookup_ends_at_start(n, s, t, x, w);
        }
        lemma_lookup_ends_at_start(n, s, t, s, w);
    } else {
        assert(ms.contains(p));
        assert(all.contains(ps)) by {
            assert(rv.finger(p, 1) is Some);
        }
        assert forall|x: u8| #[trigger] ms.contains(x) && ring_dist(x, n) >= w implies ring_dist(
            p,
            n,
        ) > w && (t != ps ==> ring_dist(x, n) >= ring_dist(p, n)) by {
            assert(all.contains(x));
            assert(ring_dist(ring_add(p, 1), ps) <= ring_dist(ring_add(p, 1), x));
            lemma_lookup_ends_at_member(n, t, p, ps, x, w);
        }
        assert(ms.contains(p) && ring_dist(p, n) >= w);
        if t == ps {
            assert(t != n);
            assert(ms.contains(t));
        }
    }
}

/// Finger `i` of each peer of `ms` is in `after` what it is in `before`,
/// or the new peer `n`; the fingers `i` of all other peers are the same.
pub open spec fn finger_kept_or_new(
    after: RingView,
    before: RingView,
    ms: Set<u8>,
    n: u8,
    i: int,
) -> bool {
    forall|p: u8|
        #[trigger] after.finger(p, i) == before.finger(p, i) || (ms.contains(p) && after.finger(
            p,
            i,
        ) == Some(n))
}

/// From any peer on, going back from peer to peer among peers that all
/// have a finger `i`, `update_finger_table` succeeds and changes nothing but
/// fingers `i` of peers of `ms`, which it points at the new peer `n`.
pub proof fn lemma_chain_frames(
    rv: RingView,
    base: RingView,
    ms: Set<u8>,
    n: u8,
    s: u8,
    i: int,
    cur: u8,
)
    requires
        1 <= i <= 8,
        rv.wf(),
        base.wf(),
        predecessors_joining(base, ms, n, s),
        forall|p: u8| ms.contains(p) ==> (#[trigger] base.finger(p, i)) is Some,
        same_but_fingers(rv, base),
        forall|j: int| 1 <= j <= 8 && j != i ==> same_fingers_at(rv, base, j),
        finger_kept_or_new(rv, base, ms, n, i),
        cur == n || ms.contains(cur),
    ensures
        update_finger_table_chain(rv, cur, n, i).1 == Ok::<(), ChordError>(()),
        update_finger_table_chain(rv, cur, n, i).0.wf(),
        same_but_fingers(update_finger_table_chain(rv, cur, n, i).0, base),
        forall|j: int|
            1 <= j <= 8 && j != i ==> same_fingers_at(
                update_finger_table_chain(rv, cur, n, i).0,
                base,
                j,
            ),
        finger_kept_or_new(update_finger_table_chain(rv, cur, n, i).0, base, ms, n, i),
    decreases 256 - fingers_matching(rv, i, Some(n), 256),
{
    if cur != n {
        assert(rv.finger(cur, i) == base.finger(cur, i) || rv.finger(cur, i) == Some(n));
        assert(base.finger(cur, i) is Some);
        let f = rv.finger(cur, i)->0;
        if left_closed(n, cur, f) {
            let patched = rv.with_finger(cur, i, Some(n));
            lemma_with_finger(rv, cur, i, Some(n));
            lemma_patch_changes_count(rv, cur, i, Some(n), Some(n), 256);
            assert(rv.predecessor(cur) == base.predecessor(cur));
            assert(patched.predecessor(cur) == rv.predecessor(cur));
            assert(same_but_fingers(patched, base));
            assert forall|j: int| 1 <= j <= 8 && j != i implies same_fingers_at(
                patched,
                base,
                j,
            ) by {
                assert(same_fingers_at(rv, base, j));
                assert forall|p: u8| #[trigger] patched.finger(p, j) == base.finger(p, j) by {
                    assert(rv.finger(p, j) == base.finger(p, j));
                }
            }
            assert(finger_kept_or_new(patched, base, ms, n, i)) by {
                assert forall|p: u8|
                    #[trigger] patched.finger(p, i) == base.finger(p, i) || (ms.contains(p)
                        && patched.finger(p, i) == Some(n)) by {
                    assert(rv.finger(p, i) == base.finger(p, i) || (ms.contains(p) && rv.finger(
                        p,
                        i,
                    ) == Some(n)));
                }
            }
            let q = patched.predecessor(cur)->0;
            assert(base.predecessor(cur) is Some);
            assert(q == n || ms.contains(q));
            lemma_chain_frames(patched, base, ms, n, s, i, q);
        }
    }
}

/// One round of `update_others` on a store in which finger `i` of every
/// peer of `ms` is exact: it succeeds, and finger `i` of every peer of `ms` is
/// then what it has to be with `n` in the ring. Nothing else changes.
pub proof fn lemma_round_patches(rv: RingView, ms: Set<u8>, n: u8, s: u8, i: int)
    requires
        1 <= i <= 8,
        rv.wf(),
        predecessors_joining(rv, ms, n, s),
        successors_joining(rv, ms, n, s),
        finger_exact_at(rv, ms, i),
    ensures
        find_predecessor_walk(rv, n, finger_origin(n, i)) is Ok,
        rv.successor(find_predecessor_walk(rv, n, finger_origin(n, i))->Ok_0) is Some,
        update_finger_table_chain(rv, first_to_patch(rv, n, i), n, i).1 == Ok::<(), ChordError>(
            (),
        ),
        update_finger_table_chain(rv, first_to_patch(rv, n, i), n, i).0.wf(),
        same_but_fingers(update_finger_table_chain(rv, first_to_patch(rv, n, i), n, i).0, rv),
        forall|j: int|
            1 <= j <= 8 && j != i ==> same_fingers_at(
                update_finger_table_chain(rv, first_to_patch(rv, n, i), n, i).0,
                rv,
                j,
            ),
        forall|p: u8|
            !ms.contains(p) ==> #[trigger] update_finger_table_chain(
                rv,
                first_to_patch(rv, n, i),
                n,
                i,
            ).0.finger(p, i) == rv.finger(p, i),
        finger_patched_at(
            update_finger_table_chain(rv, first_to_patch(rv, n, i), n, i).0,
            rv,
            ms,
            n,
            i,
        ),
{
    lemma_first_to_patch(rv, ms, n, s, i);
    let first = first_to_patch(rv, n, i);
    let bound = if first == n {
        256
    } else {
        ring_dist(first, n)
    };
    assert(patched_up_to(rv, rv, ms, n, i, bound));
    assert forall|j: int| 1 <= j <= 8 && j != i implies same_fingers_at(rv, rv, j) by {}
    lemma_chain_patches(rv, rv, ms, n, s, i, first, bound);
}

/// One round of `update_others` on any store in which `n` is joining: it
/// succeeds, and changes nothing but fingers `i` of peers of `ms`, which it
/// points at `n`.
pub proof fn lemma_round_frames(rv: RingView, ms: Set<u8>, n: u8, s: u8, i: int)
    requires
        1 <= i <= 8,
        rv.wf(),
        predecessors_joining(rv, ms, n, s),
        successors_joining(rv, ms, n, s),
    ensures
        find_predecessor_walk(rv, n, finger_origin(n, i)) is Ok,
        rv.successor(find_predecessor_walk(rv, n, finger_origin(n, i))->Ok_0) is Some,
        update_finger_table_chain(rv, first_to_patch(rv, n, i), n, i).1 == Ok::<(), ChordError>(
            (),
        ),
        update_finger_table_chain(rv, first_to_patch(rv, n, i), n, i).0.wf(),
        same_but_fingers(update_finger_table_chain(rv, first_to_patch(rv, n, i), n, i).0, rv),
        forall|j: int|
            1 <= j <= 8 && j != i ==> same_fingers_at(
                update_finger_table_chain(rv, first_to_patch(rv, n, i), n, i).0,
                rv,
                j,
            ),
        finger_kept_or_new(
            update_finger_table_chain(rv, first_to_patch(rv, n, i), n, i).0,
            rv,
            ms,
            n,
            i,
        ),
{
    lemma_first_to_patch(rv, ms, n, s, i);
    let first = first_to_patch(rv, n, i);
    assert forall|p: u8| ms.contains(p) implies (#[trigger] rv.finger(p, i)) is Some by {
        assert(ms.insert(n).contains(p));
    }
    assert forall|j: int| 1 <= j <= 8 && j != i implies same_fingers_at(rv, rv, j) by {}
    assert(finger_kept_or_new(rv, rv, ms, n, i));
    lemma_chain_frames(rv, rv, ms, n, s, i, first);
}

/// How far `update_others` has come before round `i`, measured against
/// the store `base` that it started on: the fingers from `i` on are
/// untouched; each finger before `i` of a peer of `ms` is kept or points at
/// `n`, and is what it has to be where the finger was exact for every peer of
/// `ms`. Nothing else has changed.
pub open spec fn rounds_done(rv: RingView, base: RingView, ms: Set<u8>, n: u8, i: int) -> bool {
    &&& rv.wf()
    &&& same_but_fingers(rv, base)
    &&& forall|j: int| i <= j <= 8 ==> #[trigger] same_fingers_at(rv, base, j)
    &&& forall|j: int| 1 <= j < i ==> #[trigger] finger_kept_or_new(rv, base, ms, n, j)
    &&& forall|j: int|
        1 <= j < i && finger_exact_at(base, ms, j) ==> #[trigger] finger_patched_at(
            rv,
            base,
            ms,
            n,
            j,
        )
}

/// Before each round of `update_others` the store is fit for the round.
pub proof fn lemma_round_state(rv: RingView, base: RingView, ms: Set<u8>, n: u8, s: u8, i: int)
    requires
        1 <= i <= 8,
        base.wf(),
        predecessors_joining(base, ms, n, s),
        successors_joining(base, ms, n, s),
        finger_exact_at(base, ms, 1),
        rounds_done(rv, base, ms, n, i),
    ensures
        predecessors_joining(rv, ms, n, s),
        successors_joining(rv, ms, n, s),
        finger_exact_at(base, ms, i) ==> finger_exact_at(rv, ms, i),
{
    let all = ms.insert(n);
    assert(predecessors_joining(rv, ms, n, s)) by {
        assert(rv.predecessor(s) == base.predecessor(s));
        assert forall|p: u8| ms.contains(p) && p != s implies (#[trigger] rv.predecessor(
            p,
        )) is Some && ms.contains(rv.predecessor(p)->0) && is_successor_of(
            ms,
            ring_add(rv.predecessor(p)->0, 1),
            p,
        ) by {
            assert(rv.predecessor(p) == base.predecessor(p));
        }
    }
    assert forall|p: u8, j: int| 1 <= j <= 8 implies #[trigger] rv.finger(p, j) == base.finger(
        p,
        j,
    ) || (ms.contains(p) && rv.finger(p, j) == Some(n)) by {
        if j < i {
            assert(finger_kept_or_new(rv, base, ms, n, j));
        } else {
            assert(same_fingers_at(rv, base, j));
        }
    }
    assert forall|p: u8, j: int| all.contains(p) && 1 <= j <= 8 implies (#[trigger] rv.finger(
        p,
        j,
    )) is Some && all.contains(rv.finger(p, j)->0) by {
        assert(base.finger(p, j) is Some);
    }
    assert(rv.successor(n) == Some(s)) by {
        assert(rv.finger(n, 1) == base.finger(n, 1));
        assert(base.successor(n) == Some(s));
    }
    lemma_finger_start_dist(n, 1);
    assert forall|p: u8| ms.contains(p) implies (#[trigger] rv.successor(p)) is Some && (
    is_successor_of(ms, ring_add(p, 1), rv.successor(p)->0) || is_successor_of(
        all,
        ring_add(p, 1),
        rv.successor(p)->0,
    )) by {
        assert(all.contains(p));
        assert(rv.finger(p, 1) is Some);
        assert(base.successor(p) is Some);
        if 1 < i {
            assert(finger_patched_at(rv, base, ms, n, 1));
            assert(base.finger(p, 1) is Some);
            assert(spec_finger_start(p, 1) == ring_add(p, 1));
            lemma_successor_after_insert(ms, n, ring_add(p, 1), base.finger(p, 1)->0);
        } else {
            assert(same_fingers_at(rv, base, 1));
            assert(rv.finger(p, 1) == base.finger(p, 1));
        }
    }
    if finger_exact_at(base, ms, i) {
        assert(same_fingers_at(rv, base, i));
        assert forall|p: u8| ms.contains(p) implies (#[trigger] rv.finger(p, i)) is Some
            && is_successor_of(ms, spec_finger_start(p, i), rv.finger(p, i)->0) by {
            assert(rv.finger(p, i) == base.finger(p, i));
        }
    }
}

/// A finger that is what it has to be with `n` in the ring is kept or
/// points at `n`.
pub proof fn lemma_patched_is_kept_or_new(
    after: RingView,
    before: RingView,
    ms: Set<u8>,
    n: u8,
    i: int,
)
    requires
        finger_patched_at(after, before, ms, n, i),
        forall|p: u8| ms.contains(p) ==> (#[trigger] before.finger(p, i)) is Some,
        forall|p: u8| !ms.contains(p) ==> #[trigger] after.finger(p, i) == before.finger(p, i),
    ensures
        finger_kept_or_new(after, before, ms, n, i),
{
    assert forall|p: u8|
        #[trigger] after.finger(p, i) == before.finger(p, i) || (ms.contains(p) && after.finger(
            p,
            i,
        ) == Some(n)) by {
        if ms.contains(p) {
            assert(before.finger(p, i) is Some);
        }
    }
}

/// After a round, `update_others` has come one round farther.
pub proof fn lemma_round_done(
    out: RingView,
    rv: RingView,
    base: RingView,
    ms: Set<u8>,
    n: u8,
    i: int,
)
    requires
        1 <= i <= 8,
        rounds_done(rv, base, ms, n, i),
        out.wf(),
        same_but_fingers(out, rv),
        forall|j: int| 1 <= j <= 8 && j != i ==> same_fingers_at(out, rv, j),
        finger_kept_or_new(out, rv, ms, n, i),
        finger_exact_at(base, ms, i) ==> finger_patched_at(out, rv, ms, n, i),
    ensures
        rounds_done(out, base, ms, n, i + 1),
{
    assert(same_but_fingers(out, base)) by {
        assert forall|p: u8| #[trigger] out.predecessor(p) == base.predecessor(p) by {
            assert(rv.predecessor(p) == base.predecessor(p));
        }
        assert forall|p: u8| #[trigger] out.keys(p) == base.keys(p) by {
            assert(rv.keys(p) == base.keys(p));
        }
        assert forall|p: u8| #[trigger] out.state(p) == base.state(p) by {
            assert(rv.state(p) == base.state(p));
        }
        assert forall|p: u8| #[trigger] out.lookup_info(p) == base.lookup_info(p) by {
            assert(rv.lookup_info(p) == base.lookup_info(p));
        }
    }
    assert(same_fingers_at(rv, base, i));
    assert forall|j: int| i + 1 <= j <= 8 implies #[trigger] same_fingers_at(out, base, j) by {
        assert(same_fingers_at(out, rv, j));
        assert(same_fingers_at(rv, base, j));
        assert forall|p: u8| #[trigger] out.finger(p, j) == base.finger(p, j) by {
            assert(rv.finger(p, j) == base.finger(p, j));
        }
    }
    assert forall|j: int| 1 <= j < i + 1 implies #[trigger] finger_kept_or_new(
        out,
        base,
        ms,
        n,
        j,
    ) by {
        if j < i {
            assert(same_fingers_at(out, rv, j));
            assert(finger_kept_or_new(rv, base, ms, n, j));
            assert forall|p: u8|
                #[trigger] out.finger(p, j) == base.finger(p, j) || (ms.contains(p) && out.finger(
                    p,
                    j,
                ) == Some(n)) by {
                assert(out.finger(p, j) == rv.finger(p, j));
                assert(rv.finger(p, j) == base.finger(p, j) || (ms.contains(p) && rv.finger(p, j)
                    == Some(n)));
            }
        } else {
            assert forall|p: u8|
                #[trigger] out.finger(p, j) == base.finger(p, j) || (ms.contains(p) && out.finger(
                    p,
                    j,
                ) == Some(n)) by {
                assert(rv.finger(p, j) == base.finger(p, j));
                assert(out.finger(p, j) == rv.finger(p, j) || (ms.contains(p) && out.finger(p, j)
                    == Some(n)));
            }
        }
    }
    assert forall|j: int| 1 <= j < i + 1 && finger_exact_at(base, ms, j) implies #[trigger] finger_patched_at(
        out,
        base,
        ms,
        n,
        j,
    ) by {
        if j < i {
            assert(same_fingers_at(out, rv, j));
            assert(finger_patched_at(rv, base, ms, n, j));
            assert forall|p: u8| ms.contains(p) implies #[trigger] out.finger(p, j) == Some(
                successor_with(spec_finger_start(p, j), n, base.finger(p, j)->0),
            ) by {
                assert(out.finger(p, j) == rv.finger(p, j));
            }
        } else {
            assert(finger_patched_at(out, rv, ms, n, i));
            assert forall|p: u8| ms.contains(p) implies #[trigger] out.finger(p, j) == Some(
                successor_with(spec_finger_start(p, j), n, base.finger(p, j)->0),
            ) by {
                assert(rv.finger(p, j) == base.finger(p, j));
            }
        }
    }
}

/// From round `i` on, `update_others` succeeds and comes to its end.
pub proof fn lemma_rounds(rv: RingView, base: RingView, ms: Set<u8>, n: u8, s: u8, i: int)
    requires
        1 <= i <= 9,
        base.wf(),
        predecessors_joining(base, ms, n, s),
        successors_joining(base, ms, n, s),
        finger_exact_at(base, ms, 1),
        rounds_done(rv, base, ms, n, i),
    ensures
        update_others_from(rv, n, i).1 == Ok::<(), ChordError>(()),
        rounds_done(update_others_from(rv, n, i).0, base, ms, n, 9),
    decreases 9 - i,
{
    if i <= 8 {
        lemma_round_state(rv, base, ms, n, s, i);
        let first = first_to_patch(rv, n, i);
        let out = update_finger_table_chain(rv, first, n, i).0;
        if finger_exact_at(base, ms, i) {
            lemma_round_patches(rv, ms, n, s, i);
            lemma_patched_is_kept_or_new(out, rv, ms, n, i);
        } else {
            lemma_round_frames(rv, ms, n, s, i);
        }
        lemma_round_done(out, rv, base, ms, n, i);
        lemma_rounds(out, base, ms, n, s, i + 1);
        let t = finger_origin(n, i);
        let p = find_predecessor_walk(rv, n, t)->Ok_0;
        let ps = rv.successor(p)->0;
        assert(first == (if t == ps {
            ps
        } else {
            p
        }));
    }
}

/// The peer in front of which `n` joins: the owner that a lookup from `b`
/// finds for the start of finger 1 of `n`.
pub open spec fn join_successor(rv: RingView, n: u8, b: u8) -> u8 {
    find_successor_walk(rv, b, spec_finger_start(n, 1))->Ok_0
}

/// The table of the new peer `n` while it is filled: its fingers up to
/// `upto` are exact among `ms`, and no other peer has another finger than in
/// `rv0`.
pub open spec fn table_filled(rv: RingView, rv0: RingView, ms: Set<u8>, n: u8, upto: int) -> bool {
    &&& rv.wf()
    &&& forall|p: u8, j: int|
        p != n && 1 <= j <= 8 ==> #[trigger] rv.finger(p, j) == rv0.finger(p, j)
    &&& forall|j: int|
        1 <= j <= upto ==> (#[trigger] rv.finger(n, j)) is Some && is_successor_of(
            ms,
            spec_finger_start(n, j),
            rv.finger(n, j)->0,
        )
}

/// From finger `i + 1` on, `init_finger_table` fills the table of the new
/// peer with exact fingers, and succeeds.
pub proof fn lemma_fill_fingers(rv: RingView, rv0: RingView, ms: Set<u8>, n: u8, b: u8, i: int)
    requires
        1 <= i <= 8,
        links_ok(rv0, ms),
        !ms.contains(n),
        ms.contains(b),
        table_filled(rv, rv0, ms, n, i),
    ensures
        init_fingers_from(rv, n, b, i).1 == Ok::<(), ChordError>(()),
        table_filled(init_fingers_from(rv, n, b, i).0, rv0, ms, n, 8),
        same_but_fingers(init_fingers_from(rv, n, b, i).0, rv),
    decreases 8 - i,
{
    if i < 8 {
        let start = spec_finger_start(n, i + 1);
        assert(rv.finger(n, i) is Some);
        let g = rv.finger(n, i)->0;
        let node = if left_closed(start, n, g) {
            g
        } else {
            find_successor_walk(rv, b, start)->Ok_0
        };
        if left_closed(start, n, g) {
            lemma_reused_finger(ms, n, i, g);
        } else {
            lemma_members_closed(rv0, ms);
            assert(same_fingers(rv0, rv, ms));
            lemma_same_fingers_same_walk(rv0, rv, ms, b, start);
            lemma_lookup_finds_owner(rv0, ms, b, start);
        }
        let next = rv.with_finger(n, i + 1, Some(node));
        lemma_with_finger(rv, n, i + 1, Some(node));
        assert(table_filled(next, rv0, ms, n, i + 1)) by {
            assert forall|p: u8, j: int| p != n && 1 <= j <= 8 implies #[trigger] next.finger(p, j)
                == rv0.finger(p, j) by {
                assert(rv.finger(p, j) == rv0.finger(p, j));
            }
            assert forall|j: int| 1 <= j <= i + 1 implies (#[trigger] next.finger(n, j)) is Some
                && is_successor_of(ms, spec_finger_start(n, j), next.finger(n, j)->0) by {
                if j <= i {
                    assert(rv.finger(n, j) is Some);
                }
            }
        }
        lemma_fill_fingers(next, rv0, ms, n, b, i + 1);
        let out = init_fingers_from(next, n, b, i + 1).0;
        assert(same_but_fingers(out, rv)) by {
            assert forall|p: u8| #[trigger] out.predecessor(p) == rv.predecessor(p) by {
                assert(next.predecessor(p) == rv.predecessor(p));
            }
            assert forall|p: u8| #[trigger] out.keys(p) == rv.keys(p) by {
                assert(next.keys(p) == rv.keys(p));
            }
            assert forall|p: u8| #[trigger] out.state(p) == rv.state(p) by {
                assert(next.state(p) == rv.state(p));
            }
            assert forall|p: u8| #[trigger] out.lookup_info(p) == rv.lookup_info(p) by {
                assert(next.lookup_info(p) == rv.lookup_info(p));
            }
        }
    }
}

/// The store after `init_finger_table`, against the store `rv0` before it:
/// the new peer `n` has exact fingers among `ms` and the old predecessor of
/// `s`; `s` has `n` as predecessor; nothing else has changed.
pub open spec fn table_initialised(rv: RingView, rv0: RingView, ms: Set<u8>, n: u8, s: u8) -> bool {
    &&& table_filled(rv, rv0, ms, n, 8)
    &&& forall|p: u8| #[trigger]
        rv.predecessor(p) == (if p == s {
            Some(n)
        } else if p == n {
            rv0.predecessor(s)
        } else {
            rv0.predecessor(p)
        })
    &&& forall|p: u8| #[trigger] rv.keys(p) == rv0.keys(p)
    &&& forall|p: u8| #[trigger] rv.state(p) == rv0.state(p)
    &&& forall|p: u8| #[trigger] rv.lookup_info(p) == rv0.lookup_info(p)
    &&& rv.members() == rv0.members()
}

/// Through a peer of a ring with sound pointers, `init_finger_table`
/// succeeds for a peer outside the ring, in front of the successor of that
/// peer.
pub proof fn lemma_init_finger_table(rv0: RingView, ms: Set<u8>, n: u8, b: u8)
    requires
        links_ok(rv0, ms),
        !ms.contains(n),
        ms.contains(b),
    ensures
        init_finger_table_result(rv0, n, b).1 == Ok::<(), ChordError>(()),
        is_successor_of(ms, ring_add(n, 1), join_successor(rv0, n, b)),
        table_initialised(
            init_finger_table_result(rv0, n, b).0,
            rv0,
            ms,
            n,
            join_successor(rv0, n, b),
        ),
{
    lemma_finger_start_dist(n, 1);
    let start = spec_finger_start(n, 1);
    assert(start == ring_add(n, 1));
    lemma_lookup_finds_owner(rv0, ms, b, start);
    let s = join_successor(rv0, n, b);
    let l1 = rv0.with_finger(n, 1, Some(s));
    lemma_with_finger(rv0, n, 1, Some(s));
    let l2 = l1.with_predecessor(n, l1.predecessor(s));
    lemma_with_predecessor(l1, n, l1.predecessor(s));
    let l3 = l2.with_predecessor(s, Some(n));
    lemma_with_predecessor(l2, s, Some(n));
    assert(l1.predecessor(s) == rv0.predecessor(s));
    assert(table_filled(l3, rv0, ms, n, 1)) by {
        assert forall|p: u8, j: int| p != n && 1 <= j <= 8 implies #[trigger] l3.finger(p, j)
            == rv0.finger(p, j) by {
            assert(l3.finger(p, j) == l2.finger(p, j));
            assert(l2.finger(p, j) == l1.finger(p, j));
        }
        assert forall|j: int| 1 <= j <= 1 implies (#[trigger] l3.finger(n, j)) is Some
            && is_successor_of(ms, spec_finger_start(n, j), l3.finger(n, j)->0) by {
            assert(l3.finger(n, 1) == l2.finger(n, 1));
            assert(l2.finger(n, 1) == l1.finger(n, 1));
        }
    }
    lemma_fill_fingers(l3, rv0, ms, n, b, 1);
    let out = init_fingers_from(l3, n, b, 1).0;
    assert(out == init_finger_table_result(rv0, n, b).0);
    assert forall|p: u8| #[trigger]
        out.predecessor(p) == (if p == s {
            Some(n)
        } else if p == n {
            rv0.predecessor(s)
        } else {
            rv0.predecessor(p)
        }) by {
        assert(out.predecessor(p) == l3.predecessor(p));
        assert(l2.predecessor(p) == (if p == n {
            l1.predecessor(s)
        } else {
            l1.predecessor(p)
        }));
        assert(l1.predecessor(p) == rv0.predecessor(p));
    }
    assert forall|p: u8| #[trigger] out.keys(p) == rv0.keys(p) by {
        assert(out.keys(p) == l3.keys(p));
        assert(l3.keys(p) == l2.keys(p));
        assert(l2.keys(p) == l1.keys(p));
        assert(l1.keys(p) == rv0.keys(p));
    }
    assert forall|p: u8| #[trigger] out.state(p) == rv0.state(p) by {
        assert(out.state(p) == l3.state(p));
        assert(l3.state(p) == l2.state(p));
        assert(l2.state(p) == l1.state(p));
        assert(l1.state(p) == rv0.state(p));
    }
    assert forall|p: u8| #[trigger] out.lookup_info(p) == rv0.lookup_info(p) by {
        assert(out.lookup_info(p) == l3.lookup_info(p));
        assert(l3.lookup_info(p) == l2.lookup_info(p));
        assert(l2.lookup_info(p) == l1.lookup_info(p));
        assert(l1.lookup_info(p) == rv0.lookup_info(p));
    }
}

proof fn lemma_new_predecessor_arith(n: u8, s: u8, p0: u8)
    requires
        n != s,
        n != p0,
        ring_dist(ring_add(n, 1), s) <= ring_dist(ring_add(n, 1), p0),
    ensures
        ring_dist(ring_add(p0, 1), n) < ring_dist(ring_add(p0, 1), s),
        ring_dist(ring_add(n, 1), n) >= ring_dist(ring_add(n, 1), s),
{
}

proof fn lemma_old_predecessor_arith(n: u8, q: u8, p: u8)
    requires
        n != q,
        n != p,
        ring_dist(q, n) > ring_dist(p, n),
    ensures
        ring_dist(ring_add(q, 1), n) >= ring_dist(ring_add(q, 1), p),
{
}

/// After the last round of `update_others` the pointers are sound for
/// the ring with `n` in it.
pub proof fn lemma_rounds_link(rv: RingView, base: RingView, rv0: RingView, ms: Set<u8>, n: u8, s: u8)
    requires
        links_ok(rv0, ms),
        !ms.contains(n),
        is_successor_of(ms, ring_add(n, 1), s),
        table_initialised(base, rv0, ms, n, s),
        rounds_done(rv, base, ms, n, 9),
    ensures
        links_ok(rv, ms.insert(n)),
        rv.successor(n) == Some(s),
{
    let all = ms.insert(n);
    lemma_finger_start_dist(n, 1);
    assert(rv0.predecessor(s) is Some);
    let p0 = rv0.predecessor(s)->0;
    assert forall|p: u8, j: int| 1 <= j <= 8 implies #[trigger] rv.finger(p, j) == base.finger(
        p,
        j,
    ) || (ms.contains(p) && rv.finger(p, j) == Some(n)) by {
        assert(finger_kept_or_new(rv, base, ms, n, j));
    }
    assert forall|p: u8, j: int| all.contains(p) && 1 <= j <= 8 implies (#[trigger] rv.finger(
        p,
        j,
    )) is Some && all.contains(rv.finger(p, j)->0) by {
        if p == n {
            assert(base.finger(n, j) is Some);
        } else {
            assert(base.finger(p, j) == rv0.finger(p, j));
            assert(rv0.finger(p, j) is Some);
        }
    }
    assert(finger_exact_at(base, ms, 1)) by {
        assert forall|p: u8| ms.contains(p) implies (#[trigger] base.finger(p, 1)) is Some
            && is_successor_of(ms, spec_finger_start(p, 1), base.finger(p, 1)->0) by {
            assert(base.finger(p, 1) == rv0.finger(p, 1));
            assert(rv0.successor(p) is Some);
            lemma_finger_start_dist(p, 1);
        }
    }
    assert(finger_patched_at(rv, base, ms, n, 1));
    assert(base.finger(n, 1) is Some);
    lemma_successor_unique(ms, ring_add(n, 1), s, base.finger(n, 1)->0);
    assert(rv.finger(n, 1) == base.finger(n, 1));
    assert(ring_dist(ring_add(n, 1), s) <= ring_dist(ring_add(n, 1), p0));
    lemma_new_predecessor_arith(n, s, p0);
    assert forall|p: u8| all.contains(p) implies (#[trigger] rv.successor(p)) is Some
        && is_successor_of(all, ring_add(p, 1), rv.successor(p)->0) by {
        assert(rv.finger(p, 1) is Some);
        if p == n {
            lemma_successor_after_insert(ms, n, ring_add(n, 1), s);
        } else {
            assert(base.finger(p, 1) is Some);
            lemma_finger_start_dist(p, 1);
            lemma_successor_after_insert(ms, n, ring_add(p, 1), base.finger(p, 1)->0);
        }
    }
    assert forall|p: u8| all.contains(p) implies (#[trigger] rv.predecessor(p)) is Some
        && all.contains(rv.predecessor(p)->0) && is_successor_of(
        all,
        ring_add(rv.predecessor(p)->0, 1),
        p,
    ) by {
        assert(rv.predecessor(p) == base.predecessor(p));
        if p == s {
            lemma_successor_after_insert(ms, n, ring_add(n, 1), s);
        } else if p == n {
            lemma_successor_after_insert(ms, n, ring_add(p0, 1), s);
        } else {
            assert(rv0.predecessor(p) is Some);
            let q = rv0.predecessor(p)->0;
            assert(ring_dist(ring_add(q, 1), p) <= ring_dist(ring_add(q, 1), s));
            assert(ring_dist(ring_add(n, 1), s) <= ring_dist(ring_add(n, 1), p));
            assert(ring_dist(ring_add(n, 1), s) <= ring_dist(ring_add(n, 1), q));
            lemma_back_one_arith(n, s, q, p, p);
            lemma_old_predecessor_arith(n, q, p);
            lemma_successor_after_insert(ms, n, ring_add(q, 1), p);
        }
    }
}

/// On sound pointers no lookup from a peer of the ring fails.
pub proof fn lemma_no_failed_lookup(rv: RingView, ms: Set<u8>, n: u8, s: u8, upto: int)
    requires
        links_ok(rv, ms),
        ms.contains(n),
        upto <= 256,
    ensures
        first_failed_lookup(rv, n, s, upto) is None,
    decreases upto,
{
    if upto > 0 {
        lemma_no_failed_lookup(rv, ms, n, s, upto - 1);
        lemma_lookup_finds_owner(rv, ms, n, (upto - 1) as u8);
    }
}

/// The keys that `n` owns among the peers `ms`.
pub open spec fn owned_by(ms: Set<u8>, n: u8) -> Set<u8> {
    Set::new(|k: u8| is_successor_of(ms, k, n))
}

proof fn lemma_key_stays_arith(n: u8, k: u8, p: u8, x: u8)
    requires
        n != p,
        n != x,
        ring_dist(k, n) < ring_dist(k, p),
        ring_dist(k, p) <= ring_dist(k, x),
    ensures
        ring_dist(ring_add(n, 1), p) <= ring_dist(ring_add(n, 1), x),
{
}

/// The key stores after `transfer_keys`, against those of `before`: `n`
/// holds the keys of `s` that it owns, `s` holds its other keys, and each
/// other peer holds what it held.
pub open spec fn keys_taken_over(
    after: RingView,
    before: RingView,
    all: Set<u8>,
    n: u8,
    s: u8,
) -> bool {
    &&& after.keys(n) == before.keys(s).restrict(owned_by(all, n))
    &&& after.keys(s) == before.keys(s).remove_keys(owned_by(all, n))
    &&& forall|p: u8| p != n && p != s ==> #[trigger] after.keys(p) == before.keys(p)
}

/// On a ring whose pointers are sound with `n` in it, and whose keys are
/// with their owners without `n`, `transfer_keys` succeeds and moves to `n`
/// the keys that `n` owns; every key is then with its owner.
pub proof fn lemma_transfer_keys(rv: RingView, ms: Set<u8>, n: u8, s: u8)
    requires
        links_ok(rv, ms.insert(n)),
        !ms.contains(n),
        rv.successor(n) == Some(s),
        is_successor_of(ms, ring_add(n, 1), s),
        keys_placed(rv, ms),
    ensures
        transfer_keys_result(rv, n).1 == Ok::<Seq<Seq<char>>, ChordError>(
            migration_lines(rv.keys(s).dom().intersect(owned_by(ms.insert(n), n)), s, n, 256),
        ),
        transfer_keys_result(rv, n).0.wf(),
        same_all_fingers(transfer_keys_result(rv, n).0, rv),
        forall|p: u8| #[trigger]
            transfer_keys_result(rv, n).0.predecessor(p) == rv.predecessor(p),
        forall|p: u8| #[trigger] transfer_keys_result(rv, n).0.state(p) == rv.state(p),
        forall|p: u8| #[trigger]
            transfer_keys_result(rv, n).0.lookup_info(p) == rv.lookup_info(p),
        keys_taken_over(transfer_keys_result(rv, n).0, rv, ms.insert(n), n, s),
        keys_placed(transfer_keys_result(rv, n).0, ms.insert(n)),
{
    let all = ms.insert(n);
    lemma_no_failed_lookup(rv, all, n, s, 256);
    let take = keys_to_take(rv, n, s);
    let owned = owned_by(all, n);
    assert forall|k: u8| rv.keys(s).contains_key(k) implies (take.contains(k) <==> owned.contains(
        k,
    )) by {
        lemma_lookup_finds_owner(rv, all, n, k);
        if owned.contains(k) {
            lemma_successor_unique(all, k, n, find_successor_walk(rv, n, k)->Ok_0);
        }
    }
    assert(take =~= rv.keys(s).dom().intersect(owned));
    assert(rv.keys(n) =~= Map::<u8, Option<u8>>::empty()) by {
        assert forall|k: u8| !rv.keys(n).contains_key(k) by {
            if rv.keys(n).contains_key(k) {
                assert(is_successor_of(ms, k, n));
            }
        }
    }
    let given = rv.with_keys(n, rv.keys(n).union_prefer_right(rv.keys(s).restrict(take)));
    lemma_with_keys(rv, n, rv.keys(n).union_prefer_right(rv.keys(s).restrict(take)));
    let out = given.with_keys(s, given.keys(s).remove_keys(take));
    lemma_with_keys(given, s, given.keys(s).remove_keys(take));
    assert(out == move_keys(rv, s, n, take));
    assert(s != n);
    assert(given.keys(s) == rv.keys(s));
    assert(out.keys(n) =~= rv.keys(s).restrict(owned));
    assert(out.keys(s) =~= rv.keys(s).remove_keys(owned));
    assert forall|p: u8| p != n && p != s implies #[trigger] out.keys(p) == rv.keys(p) by {
        assert(given.keys(p) == rv.keys(p));
    }
    assert(same_all_fingers(out, rv)) by {
        assert forall|p: u8, i: int| 1 <= i <= 8 implies #[trigger] out.finger(p, i) == rv.finger(
            p,
            i,
        ) by {
            assert(given.finger(p, i) == rv.finger(p, i));
        }
    }
    assert forall|p: u8| #[trigger] out.predecessor(p) == rv.predecessor(p) by {
        assert(given.predecessor(p) == rv.predecessor(p));
    }
    assert forall|p: u8| #[trigger] out.state(p) == rv.state(p) by {
        assert(given.state(p) == rv.state(p));
    }
    assert forall|p: u8| #[trigger] out.lookup_info(p) == rv.lookup_info(p) by {
        assert(given.lookup_info(p) == rv.lookup_info(p));
    }
    assert forall|p: u8, k: u8| #[trigger] out.keys(p).contains_key(k) implies is_successor_of(
        all,
        k,
        p,
    ) by {
        if p == n {
            assert(owned.contains(k));
        } else {
            assert(rv.keys(p).contains_key(k));
            assert(is_successor_of(ms, k, p));
            lemma_successor_after_insert(ms, n, k, p);
            if successor_with(k, n, p) == n {
                if p == s {
                    assert(owned.contains(k));
                    assert(false);
                } else {
                    assert forall|x: u8| #[trigger] ms.contains(x) implies ring_dist(
                        ring_add(n, 1),
                        p,
                    ) <= ring_dist(ring_add(n, 1), x) by {
                        assert(ring_dist(k, p) <= ring_dist(k, x));
                        lemma_key_stays_arith(n, k, p, x);
                    }
                    lemma_successor_unique(ms, ring_add(n, 1), p, s);
                }
            }
        }
    }
}

/// The store after the first step of a join: `init_finger_table`.
pub open spec fn join_filled(rv: RingView, n: u8, b: u8) -> RingView {
    init_finger_table_result(rv, n, b).0
}

/// The store after the second step of a join: `update_others`.
pub open spec fn join_patched(rv: RingView, n: u8, b: u8) -> RingView {
    update_others_from(join_filled(rv, n, b), n, 1).0
}

/// The steps of a join through a member of a sound ring, for a peer
/// outside the ring: each succeeds, and leaves the store as the step after it
/// needs it.
pub proof fn lemma_join_steps(rv: RingView, n: u8, b: u8)
    requires
        ring_ok(rv),
        !rv.is_member(n),
        rv.is_member(b),
    ensures
        is_successor_of(rv.members(), ring_add(n, 1), join_successor(rv, n, b)),
        init_finger_table_result(rv, n, b).1 == Ok::<(), ChordError>(()),
        table_initialised(join_filled(rv, n, b), rv, rv.members(), n, join_successor(rv, n, b)),
        update_others_from(join_filled(rv, n, b), n, 1).1 == Ok::<(), ChordError>(()),
        rounds_done(join_patched(rv, n, b), join_filled(rv, n, b), rv.members(), n, 9),
        links_ok(join_patched(rv, n, b), rv.members().insert(n)),
        join_patched(rv, n, b).successor(n) == Some(join_successor(rv, n, b)),
        keys_placed(join_patched(rv, n, b), rv.members()),
        forall|p: u8| #[trigger] join_patched(rv, n, b).keys(p) == rv.keys(p),
        forall|p: u8| #[trigger] join_patched(rv, n, b).state(p) == rv.state(p),
        forall|p: u8| #[trigger] join_patched(rv, n, b).lookup_info(p) == rv.lookup_info(p),
        join_result(rv, n, Some(b)) == (
            transfer_keys_result(join_patched(rv, n, b), n).0.with_state(n, NodeState::InRing),
            transfer_keys_result(join_patched(rv, n, b), n).1,
        ),
{
    let ms = rv.members();
    lemma_init_finger_table(rv, ms, n, b);
    let s = join_successor(rv, n, b);
    let a = join_filled(rv, n, b);
    let all = ms.insert(n);
    assert(predecessors_joining(a, ms, n, s)) by {
        assert(a.predecessor(s) == Some(n));
        assert forall|p: u8| ms.contains(p) && p != s implies (#[trigger] a.predecessor(
            p,
        )) is Some && ms.contains(a.predecessor(p)->0) && is_successor_of(
            ms,
            ring_add(a.predecessor(p)->0, 1),
            p,
        ) by {
            assert(a.predecessor(p) == rv.predecessor(p));
        }
    }
    lemma_finger_start_dist(n, 1);
    assert(a.finger(n, 1) is Some);
    lemma_successor_unique(ms, ring_add(n, 1), s, a.finger(n, 1)->0);
    assert(successors_joining(a, ms, n, s)) by {
        assert forall|p: u8, j: int| all.contains(p) && 1 <= j <= 8 implies (#[trigger] a.finger(
            p,
            j,
        )) is Some && all.contains(a.finger(p, j)->0) by {
            if p != n {
                assert(a.finger(p, j) == rv.finger(p, j));
                assert(rv.finger(p, j) is Some);
            }
        }
        assert forall|p: u8| ms.contains(p) implies (#[trigger] a.successor(p)) is Some && (
        is_successor_of(ms, ring_add(p, 1), a.successor(p)->0) || is_successor_of(
            all,
            ring_add(p, 1),
            a.successor(p)->0,
        )) by {
            assert(a.finger(p, 1) == rv.finger(p, 1));
            assert(rv.successor(p) is Some);
        }
    }
    assert(finger_exact_at(a, ms, 1)) by {
        assert forall|p: u8| ms.contains(p) implies (#[trigger] a.finger(p, 1)) is Some
            && is_successor_of(ms, spec_finger_start(p, 1), a.finger(p, 1)->0) by {
            assert(a.finger(p, 1) == rv.finger(p, 1));
            assert(rv.successor(p) is Some);
            lemma_finger_start_dist(p, 1);
        }
    }
    assert(rounds_done(a, a, ms, n, 1));
    lemma_rounds(a, a, ms, n, s, 1);
    let bb = join_patched(rv, n, b);
    lemma_rounds_link(bb, a, rv, ms, n, s);
    assert forall|p: u8| #[trigger] bb.keys(p) == rv.keys(p) by {
        assert(bb.keys(p) == a.keys(p));
    }
    assert forall|p: u8| #[trigger] bb.state(p) == rv.state(p) by {
        assert(bb.state(p) == a.state(p));
    }
    assert forall|p: u8| #[trigger] bb.lookup_info(p) == rv.lookup_info(p) by {
        assert(bb.lookup_info(p) == a.lookup_info(p));
    }
    assert forall|p: u8, k: u8| #[trigger] bb.keys(p).contains_key(k) implies is_successor_of(
        ms,
        k,
        p,
    ) by {
        assert(bb.keys(p) == rv.keys(p));
        assert(rv.keys(p).contains_key(k));
    }
    lemma_transfer_keys(bb, ms, n, s);
}

/// A join through a member of a sound ring, for a peer outside the ring,
/// succeeds and leaves a sound ring with the peer in it. The new peer stands
/// in front of its successor `s`; it holds the keys of `s` that it owns, and
/// `s` holds its other keys; each other peer holds what it held, and the
/// records name the keys that moved. No trace changes.
pub proof fn lemma_join_keeps_ring(rv: RingView, n: u8, b: u8)
    requires
        ring_ok(rv),
        !rv.is_member(n),
        rv.is_member(b),
    ensures
        is_successor_of(rv.members(), ring_add(n, 1), join_successor(rv, n, b)),
        join_result(rv, n, Some(b)).1 == Ok::<Seq<Seq<char>>, ChordError>(
            migration_lines(
                rv.keys(join_successor(rv, n, b)).dom().intersect(
                    owned_by(rv.members().insert(n), n),
                ),
                join_successor(rv, n, b),
                n,
                256,
            ),
        ),
        ring_ok(join_result(rv, n, Some(b)).0),
        join_result(rv, n, Some(b)).0.members() == rv.members().insert(n),
        keys_taken_over(
            join_result(rv, n, Some(b)).0,
            rv,
            rv.members().insert(n),
            n,
            join_successor(rv, n, b),
        ),
        forall|p: u8| #[trigger]
            join_result(rv, n, Some(b)).0.lookup_info(p) == rv.lookup_info(p),
{
    lemma_join_steps(rv, n, b);
    let ms = rv.members();
    let all = ms.insert(n);
    let s = join_successor(rv, n, b);
    let bb = join_patched(rv, n, b);
    let c = transfer_keys_result(bb, n).0;
    let out = join_result(rv, n, Some(b)).0;
    lemma_transfer_keys(bb, ms, n, s);
    lemma_with_state(c, n, NodeState::InRing);
    assert(c.members() =~= ms) by {
        assert forall|p: u8| c.is_member(p) == rv.is_member(p) by {
            assert(c.state(p) == bb.state(p));
            assert(bb.state(p) == rv.state(p));
        }
    }
    lemma_links_carry_over(bb, c, all);
    assert(same_all_fingers(out, c));
    lemma_links_carry_over(c, out, all);
    assert forall|p: u8, k: u8| #[trigger] out.keys(p).contains_key(k) implies is_successor_of(
        all,
        k,
        p,
    ) by {
        assert(out.keys(p) == c.keys(p));
        assert(c.keys(p).contains_key(k));
    }
    assert(keys_taken_over(out, rv, all, n, s)) by {
        assert(out.keys(n) == c.keys(n));
        assert(out.keys(s) == c.keys(s));
        assert(bb.keys(s) == rv.keys(s));
        assert forall|p: u8| p != n && p != s implies #[trigger] out.keys(p) == rv.keys(p) by {
            assert(out.keys(p) == c.keys(p));
            assert(c.keys(p) == bb.keys(p));
            assert(bb.keys(p) == rv.keys(p));
        }
    }
    assert forall|p: u8| #[trigger] out.lookup_info(p) == rv.lookup_info(p) by {
        assert(out.lookup_info(p) == c.lookup_info(p));
        assert(c.lookup_info(p) == bb.lookup_info(p));
        assert(bb.lookup_info(p) == rv.lookup_info(p));
    }
}

proof fn lemma_half_ring_arith(n: u8, a: u8, g: u8, m: u8, w: int)
    requires
        1 <= w <= 128,
        n != g,
        n != m,
        ring_dist(n, a) == w,
    ensures
        ring_dist(a, n) >= ring_dist(a, g) ==> ring_dist(g, n) <= 256 - w,
        ring_dist(m, n) <= 128 && ring_dist(a, g) <= ring_dist(a, m) ==> ring_dist(a, n)
            >= ring_dist(a, g),
{
}

/// After a join through a member of a ring with exact fingers, for a peer
/// outside the ring: every finger of every old member is exact in the new
/// ring, and every finger of the new peer points at the old successor of its
/// start.
pub proof fn lemma_join_fingers(rv: RingView, n: u8, b: u8)
    requires
        ring_exact(rv),
        !rv.is_member(n),
        rv.is_member(b),
    ensures
        forall|p: u8, j: int|
            rv.is_member(p) && 1 <= j <= 8 ==> (#[trigger] join_result(rv, n, Some(b)).0.finger(
                p,
                j,
            )) is Some && is_successor_of(
                rv.members().insert(n),
                spec_finger_start(p, j),
                join_result(rv, n, Some(b)).0.finger(p, j)->0,
            ),
        forall|j: int|
            1 <= j <= 8 ==> (#[trigger] join_result(rv, n, Some(b)).0.finger(n, j)) is Some
                && is_successor_of(
                rv.members(),
                spec_finger_start(n, j),
                join_result(rv, n, Some(b)).0.finger(n, j)->0,
            ),
{
    lemma_join_steps(rv, n, b);
    let ms = rv.members();
    let all = ms.insert(n);
    let a = join_filled(rv, n, b);
    let bb = join_patched(rv, n, b);
    let c = transfer_keys_result(bb, n).0;
    let out = join_result(rv, n, Some(b)).0;
    lemma_transfer_keys(bb, ms, n, join_successor(rv, n, b));
    lemma_with_state(c, n, NodeState::InRing);
    assert forall|p: u8, j: int| 1 <= j <= 8 implies #[trigger] out.finger(p, j) == bb.finger(
        p,
        j,
    ) by {
        assert(out.finger(p, j) == c.finger(p, j));
        assert(c.finger(p, j) == bb.finger(p, j));
    }
    assert forall|p: u8, j: int| rv.is_member(p) && 1 <= j <= 8 implies (#[trigger] out.finger(
        p,
        j,
    )) is Some && is_successor_of(all, spec_finger_start(p, j), out.finger(p, j)->0) by {
        assert(out.finger(p, j) == bb.finger(p, j));
        assert(finger_exact_at(a, ms, j)) by {
            assert forall|q: u8| ms.contains(q) implies (#[trigger] a.finger(q, j)) is Some
                && is_successor_of(ms, spec_finger_start(q, j), a.finger(q, j)->0) by {
                assert(a.finger(q, j) == rv.finger(q, j));
                assert(rv.finger(q, j) is Some);
            }
        }
        assert(finger_patched_at(bb, a, ms, n, j));
        assert(a.finger(p, j) is Some);
        lemma_successor_after_insert(ms, n, spec_finger_start(p, j), a.finger(p, j)->0);
    }
    assert forall|j: int| 1 <= j <= 8 implies (#[trigger] out.finger(n, j)) is Some
        && is_successor_of(ms, spec_finger_start(n, j), out.finger(n, j)->0) by {
        assert(out.finger(n, j) == bb.finger(n, j));
        assert(finger_kept_or_new(bb, a, ms, n, j));
        assert(bb.finger(n, j) == a.finger(n, j));
        assert(a.finger(n, j) is Some);
    }
}

/// The first peer of a ring: a join without a peer to join through, in a
/// sound store without members, succeeds and leaves a ring with exact fingers
/// whose one member is the peer.
pub proof fn lemma_first_join(rv: RingView, n: u8)
    requires
        ring_ok(rv),
        forall|p: u8| !rv.is_member(p),
    ensures
        join_result(rv, n, None).1 == Ok::<Seq<Seq<char>>, ChordError>(Seq::empty()),
        ring_exact(join_result(rv, n, None).0),
        join_result(rv, n, None).0.members() == Set::<u8>::empty().insert(n),
{
    let out = bootstrap(rv, n);
    let only = Set::<u8>::empty().insert(n);
    assert(rv.peers[n as int].wf());
    assert forall|p: u8| (#[trigger] out.peers[p as int]).wf() && out.peers[p as int].id == p by {
        assert(rv.peers[p as int].wf());
    }
    assert(out.members() =~= only) by {
        assert forall|p: u8| out.is_member(p) <==> p == n by {
            if p != n {
                assert(out.state(p) == rv.state(p));
                assert(!rv.is_member(p));
            }
        }
    }
    assert forall|p: u8, i: int| only.contains(p) && 1 <= i <= 8 implies (#[trigger] out.finger(
        p,
        i,
    )) is Some && only.contains(out.finger(p, i)->0) && is_successor_of(
        only,
        spec_finger_start(p, i),
        out.finger(p, i)->0,
    ) by {
        assert(out.finger(n, i) == Some(n));
    }
    assert forall|p: u8| only.contains(p) implies (#[trigger] out.successor(p)) is Some
        && is_successor_of(only, ring_add(p, 1), out.successor(p)->0) by {
        assert(out.finger(n, 1) == Some(n));
    }
    assert forall|p: u8| only.contains(p) implies (#[trigger] out.predecessor(p)) is Some
        && only.contains(out.predecessor(p)->0) && is_successor_of(
        only,
        ring_add(out.predecessor(p)->0, 1),
        p,
    ) by {
        assert(out.predecessor(n) == Some(n));
    }
    assert forall|p: u8, k: u8| #[trigger] out.keys(p).contains_key(k) implies is_successor_of(
        only,
        k,
        p,
    ) by {
        assert(out.keys(p) == rv.keys(p));
        assert(rv.keys(p).contains_key(k));
        assert(is_successor_of(rv.members(), k, p));
        assert(rv.is_member(p));
    }
}

/// A join through a member of a ring with exact fingers, for a peer
/// outside the ring, leaves a ring with exact fingers if and only if some
/// member lies at most half the ring before the new peer.
pub proof fn lemma_join_keeps_exact(rv: RingView, n: u8, b: u8)
    requires
        ring_exact(rv),
        !rv.is_member(n),
        rv.is_member(b),
    ensures
        ring_exact(join_result(rv, n, Some(b)).0) <==> exists|m: u8|
            rv.is_member(m) && #[trigger] ring_dist(m, n) <= 128,
{
    lemma_join_keeps_ring(rv, n, b);
    lemma_join_fingers(rv, n, b);
    let ms = rv.members();
    let all = ms.insert(n);
    let out = join_result(rv, n, Some(b)).0;
    if exists|m: u8| rv.is_member(m) && #[trigger] ring_dist(m, n) <= 128 {
        let m = choose|m: u8| rv.is_member(m) && #[trigger] ring_dist(m, n) <= 128;
        assert forall|p: u8, j: int| all.contains(p) && 1 <= j <= 8 implies (#[trigger] out.finger(
            p,
            j,
        )) is Some && is_successor_of(all, spec_finger_start(p, j), out.finger(p, j)->0) by {
            if p == n {
                let g = out.finger(n, j)->0;
                let start = spec_finger_start(n, j);
                lemma_finger_start_dist(n, j);
                assert(ms.contains(m));
                assert(ring_dist(start, g) <= ring_dist(start, m));
                lemma_half_ring_arith(n, start, g, m, two_pow((j - 1) as nat) as int);
                lemma_successor_after_insert(ms, n, start, g);
            } else {
                assert(rv.is_member(p));
            }
        }
    }
    if ring_exact(out) {
        let g = out.finger(n, 8)->0;
        let start = spec_finger_start(n, 8);
        lemma_finger_start_dist(n, 8);
        assert(all.contains(n));
        assert(out.finger(n, 8) is Some);
        assert(is_successor_of(all, start, g));
        assert(ring_dist(start, g) <= ring_dist(start, n));
        assert(ms.contains(g));
        lemma_two_pow_values();
        lemma_half_ring_arith(n, start, g, g, 128);
        assert(rv.is_member(g) && ring_dist(g, n) <= 128);
    }
}

} // verus!
