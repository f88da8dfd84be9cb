//! The operations on keys: each goes to the owner that a lookup from the
//! calling peer finds.

use vstd::prelude::*;
use crate::frame::{lemma_with_keys, lemma_with_lookup};
use crate::model::{ChordError, RingView};
use crate::ring::{
    is_successor_of, lemma_links_carry_over, lemma_lookup_finds_owner, lemma_successor_unique,
    ring_exact, ring_ok,
};
use crate::node::{Node, NodeStore};
use crate::routing::find_successor_walk;
use crate::text::{lookup_line, lookup_record};

verus! {

/// What `find` makes of a store and answers: the value that the owner of
/// `key` stores under it, with one more line in the trace of `n`; nothing
/// where the owner does not store the key.
pub open spec fn find_result(rv: RingView, n: u8, key: u8) -> (
    RingView,
    Result<Option<u8>, ChordError>,
) {
    match find_successor_walk(rv, n, key) {
        Err(e) => (rv, Err(e)),
        Ok(s) => if rv.keys(s).contains_key(key) {
            (rv.with_lookup(n, lookup_line(key, n, s, rv.keys(s)[key])), Ok(rv.keys(s)[key]))
        } else {
            (rv, Ok(None))
        },
    }
}

/// What `insert` makes of a store: the owner of `key` stores `value` under
/// it.
pub open spec fn insert_result(rv: RingView, n: u8, key: u8, value: Option<u8>) -> (
    RingView,
    Result<(), ChordError>,
) {
    match find_successor_walk(rv, n, key) {
        Err(e) => (rv, Err(e)),
        Ok(s) => (rv.with_keys(s, rv.keys(s).insert(key, value)), Ok(())),
    }
}

/// What `remove` makes of a store: the owner of `key` no longer stores it.
pub open spec fn remove_result(rv: RingView, n: u8, key: u8) -> (
    RingView,
    Result<(), ChordError>,
) {
    match find_successor_walk(rv, n, key) {
        Err(e) => (rv, Err(e)),
        Ok(s) => (rv.with_keys(s, rv.keys(s).remove(key)), Ok(())),
    }
}

/// On a sound ring, an insert from any member succeeds and puts the key
/// with its value at the successor of the key, where alone it is then stored;
/// the ring stays sound, and exact where it was.
pub proof fn lemma_insert_on_ring(rv: RingView, n: u8, key: u8, value: Option<u8>)
    requires
        ring_ok(rv),
        rv.is_member(n),
    ensures
        insert_result(rv, n, key, value).1 == Ok::<(), ChordError>(()),
        find_successor_walk(rv, n, key) is Ok,
        is_successor_of(rv.members(), key, find_successor_walk(rv, n, key)->Ok_0),
        insert_result(rv, n, key, value).0.members() == rv.members(),
        ring_ok(insert_result(rv, n, key, value).0),
        ring_exact(rv) ==> ring_exact(insert_result(rv, n, key, value).0),
        forall|p: u8|
            (#[trigger] insert_result(rv, n, key, value).0.keys(p)).contains_key(key) <==> p
                == find_successor_walk(rv, n, key)->Ok_0,
        insert_result(rv, n, key, value).0.keys(find_successor_walk(rv, n, key)->Ok_0)[key]
            == value,
{
    let ms = rv.members();
    lemma_lookup_finds_owner(rv, ms, n, key);
    let owner = find_successor_walk(rv, n, key)->Ok_0;
    let after = insert_result(rv, n, key, value).0;
    lemma_with_keys(rv, owner, rv.keys(owner).insert(key, value));
    lemma_links_carry_over(rv, after, ms);
    assert forall|p: u8, k: u8| #[trigger] after.keys(p).contains_key(k) implies is_successor_of(
        ms,
        k,
        p,
    ) by {
        if !(p == owner && k == key) {
            assert(rv.keys(p).contains_key(k));
        }
    }
    assert forall|p: u8| (#[trigger] after.keys(p)).contains_key(key) <==> p == owner by {
        if after.keys(p).contains_key(key) && p != owner {
            assert(rv.keys(p).contains_key(key));
            lemma_successor_unique(ms, key, p, owner);
        }
    }
}

/// On a sound ring, a remove from any member succeeds, and no peer stores
/// the key afterwards; the ring stays sound, and exact where it was.
pub proof fn lemma_remove_on_ring(rv: RingView, n: u8, key: u8)
    requires
        ring_ok(rv),
        rv.is_member(n),
    ensures
        remove_result(rv, n, key).1 == Ok::<(), ChordError>(()),
        remove_result(rv, n, key).0.members() == rv.members(),
        ring_ok(remove_result(rv, n, key).0),
        ring_exact(rv) ==> ring_exact(remove_result(rv, n, key).0),
        forall|p: u8| !(#[trigger] remove_result(rv, n, key).0.keys(p)).contains_key(key),
{
    let ms = rv.members();
    lemma_lookup_finds_owner(rv, ms, n, key);
    let owner = find_successor_walk(rv, n, key)->Ok_0;
    let after = remove_result(rv, n, key).0;
    lemma_with_keys(rv, owner, rv.keys(owner).remove(key));
    lemma_links_carry_over(rv, after, ms);
    assert forall|p: u8, k: u8| #[trigger] after.keys(p).contains_key(k) implies is_successor_of(
        ms,
        k,
        p,
    ) by {
        assert(rv.keys(p).contains_key(k));
    }
    assert forall|p: u8| !(#[trigger] after.keys(p)).contains_key(key) by {
        if after.keys(p).contains_key(key) {
            assert(rv.keys(p).contains_key(key));
            lemma_successor_unique(ms, key, p, owner);
        }
    }
}

/// On a sound ring, a find from any member succeeds and answers with what
/// the successor of the key stores under it; that is nothing where no peer
/// stores the key. The ring stays sound, and exact where it was.
pub proof fn lemma_find_on_ring(rv: RingView, n: u8, key: u8)
    requires
        ring_ok(rv),
        rv.is_member(n),
    ensures
        find_result(rv, n, key).1 is Ok,
        forall|p: u8|
            (#[trigger] rv.keys(p)).contains_key(key) ==> find_result(rv, n, key).1 == Ok::<
                Option<u8>,
                ChordError,
            >(rv.keys(p)[key]),
        (forall|p: u8| !(#[trigger] rv.keys(p)).contains_key(key)) ==> find_result(rv, n, key)
            == (rv, Ok::<Option<u8>, ChordError>(None)),
        find_result(rv, n, key).0.members() == rv.members(),
        ring_ok(find_result(rv, n, key).0),
        ring_exact(rv) ==> ring_exact(find_result(rv, n, key).0),
{
    let ms = rv.members();
    lemma_lookup_finds_owner(rv, ms, n, key);
    let owner = find_successor_walk(rv, n, key)->Ok_0;
    let after = find_result(rv, n, key).0;
    if rv.keys(owner).contains_key(key) {
        lemma_with_lookup(rv, n, lookup_line(key, n, owner, rv.keys(owner)[key]));
        lemma_links_carry_over(rv, after, ms);
        assert forall|p: u8, k: u8| #[trigger] after.keys(p).contains_key(k) implies is_successor_of(
            ms,
            k,
            p,
        ) by {
            assert(rv.keys(p).contains_key(k));
        }
    }
    assert forall|p: u8| (#[trigger] rv.keys(p)).contains_key(key) implies find_result(
        rv,
        n,
        key,
    ).1 == Ok::<Option<u8>, ChordError>(rv.keys(p)[key]) by {
        lemma_successor_unique(ms, key, p, owner);
    }
}

/// On a sound ring, a find of a key from any member right after an insert
/// of the key from any member answers with the value that was inserted.
pub proof fn lemma_insert_then_find(rv: RingView, writer: u8, reader: u8, key: u8, value: Option<u8>)
    requires
        ring_ok(rv),
        rv.is_member(writer),
        rv.is_member(reader),
    ensures
        find_result(insert_result(rv, writer, key, value).0, reader, key).1 == Ok::<
            Option<u8>,
            ChordError,
        >(value),
{
    lemma_insert_on_ring(rv, writer, key, value);
    let after = insert_result(rv, writer, key, value).0;
    let owner = find_successor_walk(rv, writer, key)->Ok_0;
    lemma_find_on_ring(after, reader, key);
    assert(after.keys(owner).contains_key(key));
}

impl Node {
    /// Looks `key` up from this peer. Where its owner stores it, answers
    /// with the value and records the lookup in the trace of this peer.
    pub fn find(&self, store: &mut NodeStore, key: u8) -> (r: Result<Option<u8>, ChordError>)
        requires
            old(store).wf(),
        ensures
            final(store).wf(),
            (final(store)@, r) == find_result(old(store)@, self.node_inner, key),
            ring_ok(old(store)@) && old(store)@.is_member(self.node_inner) ==> r is Ok && ring_ok(
                final(store)@,
            ) && (forall|p: u8|
                (#[trigger] old(store)@.keys(p)).contains_key(key) ==> r == Ok::<
                    Option<u8>,
                    ChordError,
                >(old(store)@.keys(p)[key])) && ((forall|p: u8|
                !(#[trigger] old(store)@.keys(p)).contains_key(key)) ==> r == Ok::<
                Option<u8>,
                ChordError,
            >(None)),
    {
        proof {
            if ring_ok(old(store)@) && old(store)@.is_member(self.node_inner) {
                lemma_find_on_ring(old(store)@, self.node_inner, key);
            }
        }
        let successor = match self.find_successor(store, key) {
            Ok(s) => s,
            Err(e) => {
                return Err(e);
            },
        };
        match store.key_value(successor, key) {
            Some(value) => {
                let line = lookup_record(key, self.node_inner, successor.node_inner, value);
                store.record_lookup(*self, line);
                Ok(value)
            },
            None => Ok(None),
        }
    }

    /// Stores `value` under `key` at the owner of the key.
    pub fn insert(&mut self, store: &mut NodeStore, key: u8, value: Option<u8>) -> (r: Result<
        (),
        ChordError,
    >)
        requires
            old(store).wf(),
        ensures
            *final(self) == *old(self),
            final(store).wf(),
            (final(store)@, r) == insert_result(old(store)@, old(self).node_inner, key, value),
            ring_ok(old(store)@) && old(store)@.is_member(old(self).node_inner) ==> r is Ok
                && ring_ok(final(store)@) && forall|p: u8|
                (#[trigger] final(store)@.keys(p)).contains_key(key) <==> is_successor_of(
                    old(store)@.members(),
                    key,
                    p,
                ),
    {
        proof {
            let rv = old(store)@;
            let n = old(self).node_inner;
            if ring_ok(rv) && rv.is_member(n) {
                lemma_insert_on_ring(rv, n, key, value);
                let owner = find_successor_walk(rv, n, key)->Ok_0;
                assert forall|p: u8| is_successor_of(rv.members(), key, p) <==> p == owner by {
                    if is_successor_of(rv.members(), key, p) {
                        lemma_successor_unique(rv.members(), key, p, owner);
                    }
                }
            }
        }
        let successor = match self.find_successor(store, key) {
            Ok(s) => s,
            Err(e) => {
                return Err(e);
            },
        };
        store.put_key(successor, key, value);
        Ok(())
    }

    /// Takes `key` out of the store of its owner.
    pub fn remove(&mut self, store: &mut NodeStore, key: u8) -> (r: Result<(), ChordError>)
        requires
            old(store).wf(),
        ensures
            *final(self) == *old(self),
            final(store).wf(),
            (final(store)@, r) == remove_result(old(store)@, old(self).node_inner, key),
            ring_ok(old(store)@) && old(store)@.is_member(old(self).node_inner) ==> r is Ok
                && ring_ok(final(store)@) && forall|p: u8|
                !(#[trigger] final(store)@.keys(p)).contains_key(key),
    {
        proof {
            if ring_ok(old(store)@) && old(store)@.is_member(old(self).node_inner) {
                lemma_remove_on_ring(old(store)@, old(self).node_inner, key);
            }
        }
        let successor = match self.find_successor(store, key) {
            Ok(s) => s,
            Err(e) => {
                return Err(e);
            },
        };
        store.take_key(successor, key);
        Ok(())
    }
}

} // verus!
