//! What each update of a store leaves as it was.

use vstd::prelude::*;
use crate::model::{NodeState, RingView};

verus! {

/// Two stores agree on everything but the fingers.
pub open spec fn same_but_fingers(rv1: RingView, rv2: RingView) -> bool {
    &&& forall|p: u8| #[trigger] rv1.predecessor(p) == rv2.predecessor(p)
    &&& forall|p: u8| #[trigger] rv1.keys(p) == rv2.keys(p)
    &&& forall|p: u8| #[trigger] rv1.state(p) == rv2.state(p)
    &&& forall|p: u8| #[trigger] rv1.lookup_info(p) == rv2.lookup_info(p)
    &&& rv1.members() == rv2.members()
}

/// Two stores agree on the fingers with index `i`.
pub open spec fn same_fingers_at(rv1: RingView, rv2: RingView, i: int) -> bool {
    forall|p: u8| #[trigger] rv1.finger(p, i) == rv2.finger(p, i)
}

/// Two stores agree on every finger.
pub open spec fn same_all_fingers(rv1: RingView, rv2: RingView) -> bool {
    forall|p: u8, i: int| 1 <= i <= 8 ==> #[trigger] rv1.finger(p, i) == rv2.finger(p, i)
}

/// A new finger changes that finger and nothing else.
pub proof fn lemma_with_finger(rv: RingView, q: u8, j: int, node: Option<u8>)
    requires
        rv.wf(),
        1 <= j <= 8,
    ensures
        rv.with_finger(q, j, node).wf(),
        same_but_fingers(rv.with_finger(q, j, node), rv),
        forall|p: u8, i: int|
            0 <= i <= 8 ==> #[trigger] rv.with_finger(q, j, node).finger(p, i) == (if p == q && i
                == j {
                node
            } else {
                rv.finger(p, i)
            }),
{
    let after = rv.with_finger(q, j, node);
    assert(rv.peers[q as int].wf());
    assert forall|p: u8| (#[trigger] after.peers[p as int]).wf() && after.peers[p as int].id
        == p by {
        assert(rv.peers[p as int].wf());
    }
    assert(after.members() =~= rv.members());
}

/// A new predecessor changes that predecessor and nothing else.
pub proof fn lemma_with_predecessor(rv: RingView, q: u8, node: Option<u8>)
    requires
        rv.wf(),
    ensures
        rv.with_predecessor(q, node).wf(),
        same_all_fingers(rv.with_predecessor(q, node), rv),
        forall|p: u8| #[trigger]
            rv.with_predecessor(q, node).predecessor(p) == (if p == q {
                node
            } else {
                rv.predecessor(p)
            }),
        forall|p: u8| #[trigger] rv.with_predecessor(q, node).keys(p) == rv.keys(p),
        forall|p: u8| #[trigger] rv.with_predecessor(q, node).state(p) == rv.state(p),
        forall|p: u8| #[trigger] rv.with_predecessor(q, node).lookup_info(p) == rv.lookup_info(p),
        rv.with_predecessor(q, node).members() == rv.members(),
{
    let after = rv.with_predecessor(q, node);
    assert forall|p: u8| (#[trigger] after.peers[p as int]).wf() && after.peers[p as int].id
        == p by {
        assert(rv.peers[p as int].wf());
    }
    assert(after.members() =~= rv.members());
}

/// A new key store changes that key store and nothing else.
pub proof fn lemma_with_keys(rv: RingView, q: u8, keys: Map<u8, Option<u8>>)
    requires
        rv.wf(),
    ensures
        rv.with_keys(q, keys).wf(),
        same_all_fingers(rv.with_keys(q, keys), rv),
        forall|p: u8| #[trigger] rv.with_keys(q, keys).predecessor(p) == rv.predecessor(p),
        forall|p: u8| #[trigger]
            rv.with_keys(q, keys).keys(p) == (if p == q {
                keys
            } else {
                rv.keys(p)
            }),
        forall|p: u8| #[trigger] rv.with_keys(q, keys).state(p) == rv.state(p),
        forall|p: u8| #[trigger] rv.with_keys(q, keys).lookup_info(p) == rv.lookup_info(p),
        rv.with_keys(q, keys).members() == rv.members(),
{
    let after = rv.with_keys(q, keys);
    assert forall|p: u8| (#[trigger] after.peers[p as int]).wf() && after.peers[p as int].id
        == p by {
        assert(rv.peers[p as int].wf());
    }
    assert(after.members() =~= rv.members());
}

/// A new state changes that state and nothing else.
pub proof fn lemma_with_state(rv: RingView, q: u8, state: NodeState)
    requires
        rv.wf(),
    ensures
        rv.with_state(q, state).wf(),
        same_all_fingers(rv.with_state(q, state), rv),
        forall|p: u8| #[trigger] rv.with_state(q, state).predecessor(p) == rv.predecessor(p),
        forall|p: u8| #[trigger] rv.with_state(q, state).keys(p) == rv.keys(p),
        forall|p: u8| #[trigger]
            rv.with_state(q, state).state(p) == (if p == q {
                state
            } else {
                rv.state(p)
            }),
        forall|p: u8| #[trigger] rv.with_state(q, state).lookup_info(p) == rv.lookup_info(p),
        state == NodeState::InRing ==> rv.with_state(q, state).members() == rv.members().insert(q),
        state != NodeState::InRing ==> rv.with_state(q, state).members() == rv.members().remove(q),
{
    let after = rv.with_state(q, state);
    assert forall|p: u8| (#[trigger] after.peers[p as int]).wf() && after.peers[p as int].id
        == p by {
        assert(rv.peers[p as int].wf());
    }
    if state == NodeState::InRing {
        assert(after.members() =~= rv.members().insert(q));
    } else {
        assert(after.members() =~= rv.members().remove(q));
    }
}

/// A new line in a trace changes that trace and nothing else.
pub proof fn lemma_with_lookup(rv: RingView, q: u8, line: Seq<char>)
    requires
        rv.wf(),
    ensures
        rv.with_lookup(q, line).wf(),
        same_all_fingers(rv.with_lookup(q, line), rv),
        forall|p: u8| #[trigger] rv.with_lookup(q, line).predecessor(p) == rv.predecessor(p),
        forall|p: u8| #[trigger] rv.with_lookup(q, line).keys(p) == rv.keys(p),
        forall|p: u8| #[trigger] rv.with_lookup(q, line).state(p) == rv.state(p),
        forall|p: u8| #[trigger]
            rv.with_lookup(q, line).lookup_info(p) == (if p == q {
                rv.lookup_info(q).push(line)
            } else {
                rv.lookup_info(p)
            }),
        rv.with_lookup(q, line).members() == rv.members(),
{
    let after = rv.with_lookup(q, line);
    assert forall|p: u8| (#[trigger] after.peers[p as int]).wf() && after.peers[p as int].id
        == p by {
        assert(rv.peers[p as int].wf());
    }
    assert(after.members() =~= rv.members());
}

} // verus!
