//! Moving keys from the store of one peer to that of another, with one
//! record for each key that moves.

use vstd::prelude::*;
use crate::model::RingView;
use crate::node::{Node, NodeStore};
use crate::text::{migration_line, migration_record};

verus! {

/// The store after the keys `ks` of `src` have gone to `dst` with their
/// values: `dst` holds them, `src` no longer does.
pub open spec fn move_keys(rv: RingView, src: u8, dst: u8, ks: Set<u8>) -> RingView {
    let given = rv.with_keys(dst, rv.keys(dst).union_prefer_right(rv.keys(src).restrict(ks)));
    given.with_keys(src, given.keys(src).remove_keys(ks))
}

/// One record for each key of `ks` below `upto`, in ascending order of the
/// keys.
pub open spec fn migration_lines(ks: Set<u8>, src: u8, dst: u8, upto: int) -> Seq<Seq<char>>
    decreases upto,
{
    if upto <= 0 {
        Seq::empty()
    } else if ks.contains((upto - 1) as u8) {
        migration_lines(ks, src, dst, upto - 1).push(migration_line((upto - 1) as u8, src, dst))
    } else {
        migration_lines(ks, src, dst, upto - 1)
    }
}

/// The keys that `take` marks.
pub open spec fn marked(take: Seq<bool>) -> Set<u8> {
    Set::new(|k: u8| take[k as int])
}

/// The lines of `records`.
pub open spec fn lines_of(records: Seq<String>) -> Seq<Seq<char>> {
    records.map_values(|line: String| line@)
}

/// Moves the keys that `take` marks from `src` to `dst`, lowest key first,
/// and answers with one record for each.
pub(crate) fn migrate(store: &mut NodeStore, src: Node, dst: Node, take: &Vec<bool>) -> (records:
    Vec<String>)
    requires
        old(store).wf(),
        take@.len() == 256,
        forall|k: u8| #[trigger] take@[k as int] ==> old(store)@.keys(src.node_inner).contains_key(k),
    ensures
        final(store).wf(),
        final(store)@ == move_keys(old(store)@, src.node_inner, dst.node_inner, marked(take@)),
        lines_of(records@) == migration_lines(marked(take@), src.node_inner, dst.node_inner, 256),
{
    let mut records: Vec<String> = Vec::new();
    let mut k: usize = 0;
    let ghost before = store@;
    proof {
        let none = Set::new(|x: u8| (x as int) < 0 && take@[x as int]);
        let m = move_keys(before, src.node_inner, dst.node_inner, none);
        assert(m.keys(dst.node_inner) =~= before.keys(dst.node_inner));
        assert(m.keys(src.node_inner) =~= before.keys(src.node_inner));
        assert(m.peers =~= before.peers);
        assert(lines_of(records@) =~= Seq::<Seq<char>>::empty());
    }
    while k < 256
        invariant
            k <= 256,
            store.wf(),
            before.wf(),
            before == old(store)@,
            take@.len() == 256,
            forall|x: u8| #[trigger] take@[x as int] ==> before.keys(src.node_inner).contains_key(x),
            store@ == move_keys(
                before,
                src.node_inner,
                dst.node_inner,
                Set::new(|x: u8| (x as int) < k && take@[x as int]),
            ),
            lines_of(records@) == migration_lines(
                marked(take@),
                src.node_inner,
                dst.node_inner,
                k as int,
            ),
        decreases 256 - k,
    {
        let key: u8 = k as u8;
        let ghost done = Set::new(|x: u8| (x as int) < k && take@[x as int]);
        let ghost next = Set::new(|x: u8| (x as int) < k + 1 && take@[x as int]);
        let ghost mid = store@;
        if take[k] {
            let value = match store.key_value(src, key) {
                Some(v) => v,
                None => None,
            };
            store.put_key(dst, key, value);
            store.take_key(src, key);
            let record = migration_record(key, src.node_inner, dst.node_inner);
            let ghost earlier = lines_of(records@);
            records.push(record);
            proof {
                let want = move_keys(before, src.node_inner, dst.node_inner, next);
                assert(take@[key as int]);
                assert(before.keys(src.node_inner).contains_key(key));
                assert(mid.keys(src.node_inner).contains_key(key));
                assert(mid.keys(src.node_inner)[key] == before.keys(src.node_inner)[key]);
                assert(store@.keys(dst.node_inner) =~= want.keys(dst.node_inner));
                assert(store@.keys(src.node_inner) =~= want.keys(src.node_inner));
                assert(store@.peers =~= want.peers);
                assert(lines_of(records@) =~= earlier.push(record@));
            }
        } else {
            proof {
                assert(next =~= done);
            }
        }
        k = k + 1;
    }
    proof {
        assert(Set::new(|x: u8| (x as int) < 256 && take@[x as int]) =~= marked(take@));
    }
    records
}

} // verus!
