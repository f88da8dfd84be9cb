//! Arithmetic on the circle of identifiers `0 .. 2^BITLENGTH`, and the three
//! interval tests (open, left-closed, right-closed) on its clockwise order.

use vstd::prelude::*;

verus! {

/// Number of bits of an identifier, and number of fingers of a peer.
pub const BITLENGTH: u8 = 8;

/// Number of identifiers on the ring.
pub const RING_SIZE: u32 = 256;

/// `2^e`.
pub open spec fn two_pow(e: nat) -> nat
    decreases e,
{
    if e == 0 {
        1
    } else {
        2 * two_pow((e - 1) as nat)
    }
}

/// Number of clockwise steps from `a` to `b`.
pub open spec fn ring_dist(a: u8, b: u8) -> int {
    if b >= a {
        b - a
    } else {
        b - a + 256
    }
}

/// The identifier `steps` positions clockwise from `a`.
pub open spec fn ring_add(a: u8, steps: int) -> u8 {
    ((a + steps) % 256) as u8
}

/// Start of finger `index` of peer `node_id`: `(node_id + 2^(index-1)) mod 2^8`.
pub open spec fn spec_finger_start(node_id: u8, index: int) -> u8 {
    ring_add(node_id, two_pow((index - 1) as nat) as int)
}

/// The identifier `size` positions counter-clockwise from `value`:
/// `(value - size) mod 2^8`.
pub open spec fn spec_decrease(value: u8, size: u8) -> u8 {
    ring_add(value, -(size as int))
}

/// `x` lies strictly between `a` and `b` going clockwise. With `a == b` the
/// interval is the whole ring but `a`.
pub open spec fn in_open_interval(x: u8, a: u8, b: u8) -> bool {
    if a == b {
        x != a
    } else {
        0 < ring_dist(a, x) < ring_dist(a, b)
    }
}

/// `x` lies in `[a, b)` on the ring.
pub open spec fn left_closed(x: u8, a: u8, b: u8) -> bool {
    x == a || in_open_interval(x, a, b)
}

/// `x` lies in `(a, b]` on the ring.
pub open spec fn right_closed(x: u8, a: u8, b: u8) -> bool {
    x == b || in_open_interval(x, a, b)
}

/// The distance from `a` to `b` is `(b - a) mod 2^8`, and `b` lies that
/// many steps after `a`.
pub proof fn lemma_ring_dist(a: u8, b: u8)
    ensures
        ring_dist(a, b) == (b - a) % 256,
        0 <= ring_dist(a, b) < 256,
        ring_add(a, ring_dist(a, b)) == b,
        ring_dist(a, b) == 0 <==> a == b,
{
}

/// The three intervals between two different identifiers `a` and `b`:
/// each identifier is `a`, is `b`, or lies strictly inside `(a, b)` or
/// strictly inside `(b, a)`, and only one of these.
pub proof fn lemma_intervals_split(x: u8, a: u8, b: u8)
    requires
        a != b,
    ensures
        x == a || x == b || in_open_interval(x, a, b) || in_open_interval(x, b, a),
        !(in_open_interval(x, a, b) && in_open_interval(x, b, a)),
        !in_open_interval(a, a, b) && !in_open_interval(b, a, b),
        right_closed(x, a, b) <==> !right_closed(x, b, a),
        left_closed(x, a, b) <==> !left_closed(x, b, a),
{
}

/// The powers of two that finger tables use.
pub proof fn lemma_two_pow_values()
    ensures
        two_pow(0) == 1,
        two_pow(1) == 2,
        two_pow(2) == 4,
        two_pow(3) == 8,
        two_pow(4) == 16,
        two_pow(5) == 32,
        two_pow(6) == 64,
        two_pow(7) == 128,
        two_pow(8) == 256,
{
    reveal_with_fuel(two_pow, 10);
}

/// Each power of two up to `2^8` is twice the one before it, and the
/// powers grow with the exponent.
pub proof fn lemma_two_pow_step(e: int)
    requires
        0 <= e <= 8,
    ensures
        1 <= two_pow(e as nat) <= 256,
        e >= 1 ==> two_pow(e as nat) == 2 * two_pow((e - 1) as nat),
        forall|a: int| 0 <= a <= e ==> #[trigger] two_pow(a as nat) <= two_pow(e as nat),
{
    lemma_two_pow_values();
    assert forall|a: int| 0 <= a <= e implies #[trigger] two_pow(a as nat) <= two_pow(
        e as nat,
    ) by {
        assert(a == 0 || a == 1 || a == 2 || a == 3 || a == 4 || a == 5 || a == 6 || a == 7 || a
            == 8);
        assert(e == 0 || e == 1 || e == 2 || e == 3 || e == 4 || e == 5 || e == 6 || e == 7 || e
            == 8);
    }
    assert(e == 0 || e == 1 || e == 2 || e == 3 || e == 4 || e == 5 || e == 6 || e == 7 || e == 8);
}

/// The identifier after `a` lies one step after `a`.
pub proof fn lemma_next_dist(a: u8)
    ensures
        ring_dist(a, ring_add(a, 1)) == 1,
{
}

/// The start of finger `i` of a peer lies `2^(i-1)` after the peer, at most
/// half the ring; the next finger starts twice as far.
pub proof fn lemma_finger_start_dist(p: u8, i: int)
    requires
        1 <= i <= 8,
    ensures
        1 <= two_pow((i - 1) as nat) <= 128,
        ring_dist(p, spec_finger_start(p, i)) == two_pow((i - 1) as nat),
        i <= 7 ==> two_pow(i as nat) == 2 * two_pow((i - 1) as nat),
        ring_dist(spec_decrease(p, two_pow((i - 1) as nat) as u8), p) == two_pow((i - 1) as nat),
{
    lemma_two_pow_values();
    assert(i == 1 || i == 2 || i == 3 || i == 4 || i == 5 || i == 6 || i == 7 || i == 8);
}

/// Where `c` lies strictly inside `(n, id)` and `p` is `c` or lies strictly
/// inside `(c, id)`, the way from `n` to `p` goes over `c`.
pub proof fn lemma_dist_over(n: u8, c: u8, p: u8, id: u8)
    requires
        in_open_interval(c, n, id),
        p == c || in_open_interval(p, c, id),
    ensures
        ring_dist(n, p) == ring_dist(n, c) + ring_dist(c, p),
        in_open_interval(p, n, id),
{
}

/// A peer other than `n` that is no farther from `n` than a peer strictly
/// inside `(n, id)` lies strictly inside `(n, id)` too.
pub proof fn lemma_nearer_is_inside(n: u8, f: u8, p: u8, id: u8)
    requires
        f != n,
        ring_dist(n, f) <= ring_dist(n, p),
        in_open_interval(p, n, id),
    ensures
        in_open_interval(f, n, id),
{
}

/// `2^e` for the exponents of a finger table.
pub fn power_of_two(e: u8) -> (r: u32)
    requires
        e <= 8,
    ensures
        r == two_pow(e as nat),
{
    let mut r: u32 = 1;
    let mut j: u8 = 0;
    proof {
        lemma_two_pow_values();
    }
    while j < e
        invariant
            j <= e <= 8,
            r == two_pow(j as nat),
            r <= 256,
        decreases e - j,
    {
        proof {
            lemma_two_pow_values();
        }
        r = r * 2;
        j = j + 1;
    }
    r
}

} // verus!
