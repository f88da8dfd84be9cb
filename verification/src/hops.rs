//! How long a lookup takes: on a ring with exact fingers, at most one hop
//! for each bit of an identifier.

use vstd::prelude::*;
use crate::model::RingView;
use crate::ring::{
    fingers_exact, is_successor_of, lemma_members_closed, lemma_walk_stays, links_ok, ring_exact,
};
use crate::ring_math::{
    in_open_interval, lemma_dist_over, lemma_nearer_is_inside, lemma_two_pow_step,
    lemma_two_pow_values, right_closed, ring_dist, spec_finger_start, two_pow,
};
use crate::routing::{
    closest_preceding, closest_preceding_from, find_predecessor_walk,
    lemma_closest_preceding_from, lemma_walk_moves_on, remaining,
};

verus! {

/// The number of hops of the lookup of `id` that starts at `n`: the number
/// of peers that it goes to after `n`.
pub open spec fn walk_hops(rv: RingView, n: u8, id: u8) -> nat
    decreases remaining(n, id),
{
    match rv.successor(n) {
        None => 0,
        Some(s) => if right_closed(id, n, s) {
            0
        } else {
            proof {
                lemma_walk_moves_on(rv, n, id);
            }
            1 + walk_hops(rv, closest_preceding(rv, n, id), id)
        },
    }
}

/// Every lookup takes fewer hops than it is far from its identifier, and
/// so fewer than there are identifiers.
pub proof fn lemma_hops_below_distance(rv: RingView, n: u8, id: u8)
    ensures
        walk_hops(rv, n, id) < remaining(n, id) <= 256,
    decreases remaining(n, id),
{
    if rv.successor(n) is Some && !right_closed(id, n, rv.successor(n)->0) {
        lemma_walk_moves_on(rv, n, id);
        lemma_hops_below_distance(rv, closest_preceding(rv, n, id), id);
    }
}

/// The finger that a scan of the fingers `1 ..= i` answers with is the
/// highest of them that points strictly inside `(n, id)`.
pub proof fn lemma_closest_is_highest(rv: RingView, n: u8, id: u8, i: int) -> (j: int)
    requires
        closest_preceding_from(rv, n, id, i) != n,
    ensures
        1 <= j <= i,
        rv.finger(n, j) == Some(closest_preceding_from(rv, n, id, i)),
        in_open_interval(closest_preceding_from(rv, n, id, i), n, id),
        forall|h: int|
            j < h <= i ==> !((#[trigger] rv.finger(n, h)) is Some && in_open_interval(
                rv.finger(n, h)->0,
                n,
                id,
            )),
    decreases i,
{
    if rv.finger(n, i) is Some && in_open_interval(rv.finger(n, i)->0, n, id) {
        i
    } else {
        lemma_closest_is_highest(rv, n, id, i - 1)
    }
}

/// The successor of the start of finger `j` of a member `n`, where it is
/// another peer, lies at least `2^(j-1)` after `n`, and no member lies from
/// there back to that distance.
pub proof fn lemma_finger_reach(ms: Set<u8>, n: u8, j: int, f: u8)
    requires
        1 <= j <= 8,
        ms.contains(n),
        is_successor_of(ms, spec_finger_start(n, j), f),
    ensures
        f != n ==> ring_dist(n, f) >= two_pow((j - 1) as nat),
        forall|x: u8|
            #[trigger] ms.contains(x) && ring_dist(n, x) >= two_pow((j - 1) as nat) ==> f != n
                && ring_dist(n, f) <= ring_dist(n, x),
{
    lemma_two_pow_values();
    let start = spec_finger_start(n, j);
    assert(ring_dist(start, f) <= ring_dist(start, n));
    assert forall|x: u8|
        #[trigger] ms.contains(x) && ring_dist(n, x) >= two_pow((j - 1) as nat) implies f != n
        && ring_dist(n, f) <= ring_dist(n, x) by {
        assert(ring_dist(start, f) <= ring_dist(start, x));
    }
}

/// One hop on a ring with exact fingers: where the lookup of `id` goes
/// from the member `n` to `c` and ends at `p`, less than `2^k` after `n`, it
/// ends less than `2^(k-1)` after `c`.
pub proof fn lemma_hop_halves(rv: RingView, ms: Set<u8>, n: u8, id: u8, c: u8, p: u8, k: int)
    requires
        fingers_exact(rv, ms),
        ms.contains(n),
        ms.contains(p),
        0 <= k <= 8,
        c == closest_preceding(rv, n, id),
        in_open_interval(c, n, id),
        p == c || in_open_interval(p, c, id),
        ring_dist(n, p) < two_pow(k as nat),
    ensures
        k >= 1,
        ring_dist(c, p) < two_pow((k - 1) as nat),
{
    let j = lemma_closest_is_highest(rv, n, id, 8);
    assert(rv.finger(n, j) == Some(c));
    lemma_finger_reach(ms, n, j, c);
    lemma_dist_over(n, c, p, id);
    let far = ring_dist(n, p);
    let near = ring_dist(n, c);
    let rest = ring_dist(c, p);
    let wj = two_pow((j - 1) as nat) as int;
    let wk = two_pow(k as nat) as int;
    assert(near >= wj);
    assert(far == near + rest);
    lemma_two_pow_step(k);
    lemma_two_pow_step(j);
    lemma_two_pow_step(j - 1);
    if j > k {
        assert(two_pow(k as nat) <= two_pow((j - 1) as nat));
        assert(false);
    }
    assert(k >= 1);
    lemma_two_pow_step(k - 1);
    if j < k {
        let f = rv.finger(n, j + 1)->0;
        assert(rv.finger(n, j + 1) is Some);
        lemma_finger_reach(ms, n, j + 1, f);
        let w = two_pow(j as nat) as int;
        if far >= w {
            assert(f != n && ring_dist(n, f) <= ring_dist(n, p));
            lemma_nearer_is_inside(n, f, p, id);
            assert(false);
        }
        assert(w == 2 * wj);
        assert(rest < wj);
        assert(two_pow((j - 1) as nat) <= two_pow((k - 1) as nat));
    } else {
        assert(wk == 2 * wj);
    }
}

/// On a ring with exact fingers, a lookup from a member that ends less
/// than `2^k` after it takes at most `k` hops.
pub proof fn lemma_hops_halve(rv: RingView, ms: Set<u8>, n: u8, id: u8, k: int)
    requires
        links_ok(rv, ms),
        fingers_exact(rv, ms),
        ms.contains(n),
        0 <= k <= 8,
        find_predecessor_walk(rv, n, id) is Ok,
        ring_dist(n, find_predecessor_walk(rv, n, id)->Ok_0) < two_pow(k as nat),
    ensures
        walk_hops(rv, n, id) <= k,
    decreases remaining(n, id),
{
    lemma_members_closed(rv, ms);
    assert(rv.successor(n) is Some);
    let s = rv.successor(n)->0;
    if !right_closed(id, n, s) {
        lemma_walk_moves_on(rv, n, id);
        let c = closest_preceding(rv, n, id);
        lemma_closest_preceding_from(rv, n, id, 8);
        assert(ms.contains(c));
        lemma_walk_stays(rv, ms, c, id);
        let p = find_predecessor_walk(rv, c, id)->Ok_0;
        assert(p == find_predecessor_walk(rv, n, id)->Ok_0);
        lemma_hop_halves(rv, ms, n, id, c, p, k);
        lemma_hops_halve(rv, ms, c, id, k - 1);
    }
}

/// On a ring with exact fingers, every lookup from a member takes at most
/// eight hops.
pub proof fn lemma_lookup_hops(rv: RingView, n: u8, id: u8)
    requires
        ring_exact(rv),
        rv.is_member(n),
    ensures
        walk_hops(rv, n, id) <= 8,
{
    lemma_two_pow_values();
    lemma_members_closed(rv, rv.members());
    lemma_walk_stays(rv, rv.members(), n, id);
    lemma_hops_halve(rv, rv.members(), n, id, 8);
}

} // verus!
