use chord::model::{ChordError, NodeState};
use chord::node::{Finger, FingerTable, Node, NodeInner, NodeStore};

fn ring_of(ids: &[u8]) -> NodeStore {
    let mut store = NodeStore::new();
    Node::new(ids[0]).join(&mut store, None).unwrap();
    for w in ids.windows(2) {
        Node::new(w[1]).join(&mut store, Some(Node::new(w[0]))).unwrap();
    }
    store
}

fn fingers(store: &NodeStore, id: u8) -> Vec<Option<u8>> {
    (1u8..=8).map(|i| store.finger(Node::new(id), i).map(|n| n.id())).collect()
}

fn first_at_or_after(members: &[u8], k: u8) -> u8 {
    let mut x = k;
    loop {
        if members.contains(&x) {
            return x;
        }
        x = x.wrapping_add(1);
    }
}

fn every_finger_exact(store: &NodeStore) -> bool {
    let members = store.members();
    members.iter().all(|&p| {
        (1u8..=8).all(|i| {
            let start = FingerTable::finger_id(p, i);
            store.finger(Node::new(p), i) == Some(Node::new(first_at_or_after(&members, start)))
        })
    })
}

fn neighbours_exact(store: &NodeStore) -> bool {
    let members = store.members();
    members.iter().all(|&p| {
        let next = first_at_or_after(&members, p.wrapping_add(1));
        Node::new(p).successor(store) == Ok(Node::new(next))
            && Node::new(next).predecessor(store) == Some(Node::new(p))
    })
}

fn dist(a: u8, b: u8) -> u16 {
    b.wrapping_sub(a) as u16
}

#[test]
fn handles_compare_by_identifier() {
    assert_eq!(Node::new(5), Node::new_inner(5));
    assert_ne!(Node::new(5), Node::new(6));
    assert_eq!(Node::new(200).id(), 200);
    assert_eq!(Node::new(9).node_inner, 9);
}

#[test]
fn a_finger_holds_what_it_is_given() {
    let mut f = Finger::new(66, None);
    assert_eq!(f.start, 66);
    assert_eq!(f.node, None);
    f.set_node(Node::new(110));
    assert_eq!(f.start, 66);
    assert_eq!(f.node, Some(Node::new(110)));
}

#[test]
fn a_new_table_has_starts_and_no_peers() {
    let table = FingerTable::new(65);
    let starts: [u8; 8] = [66, 67, 69, 73, 81, 97, 129, 193];
    for i in 1u8..=8 {
        assert_eq!(table.get(i).start, starts[(i - 1) as usize]);
        assert_eq!(table.get(i).node, None);
        assert_eq!(table.get_start(i), Ok(starts[(i - 1) as usize]));
    }
    assert_eq!(table.get_successor_node(), None);
    assert_eq!(table.get_predecessor(), None);
    assert_eq!(table.get_successor_id(), 65);
    assert_eq!(table.get_predecessor_id(), 65);
}

#[test]
fn a_table_keeps_what_is_set() {
    let mut table = FingerTable::new(250);
    table.set(3, Node::new(7));
    table.set_successor(Node::new(251));
    table.set_predecessor(Some(Node::new(240)));
    assert_eq!(table.get(3).start, 254);
    assert_eq!(table.get(3).node, Some(Node::new(7)));
    assert_eq!(table.get(1).start, 251);
    assert_eq!(table.get_successor_node(), Some(Node::new(251)));
    assert_eq!(table.get_successor_id(), 251);
    assert_eq!(table.get_predecessor(), Some(Node::new(240)));
    assert_eq!(table.get_predecessor_id(), 240);
    assert_eq!(table.get(2).node, None);
    table.set(3, Node::new(9));
    assert_eq!(table.get(3).node, Some(Node::new(9)));
    table.set_predecessor(None);
    assert_eq!(table.get_predecessor_id(), 250);
}

#[test]
fn a_new_peer_can_be_made_alone() {
    let _inner: NodeInner = NodeInner::new(12);
}

#[test]
fn a_new_store_holds_fresh_peers_only() {
    let store = NodeStore::new();
    assert!(store.members().is_empty());
    for id in [0u8, 1, 100, 255] {
        let n = Node::new(id);
        assert_eq!(store.state_of(n), NodeState::Fresh);
        assert_eq!(fingers(&store, id), vec![None; 8]);
        assert_eq!(store.successor_of(n), None);
        assert_eq!(store.predecessor_of(n), None);
        assert!(store.keys_of(n).is_empty());
        assert!(store.lookup_results(n).is_empty());
        assert!(!store.has_key(n, 3));
        assert_eq!(store.key_value(n, 3), None);
        assert_eq!(store.table(n).get_start(1), Ok(id.wrapping_add(1)));
    }
}

#[test]
fn stored_values_can_be_read_back() {
    let mut store = ring_of(&[0, 100, 200]);
    Node::new(0).insert(&mut store, 150, None).unwrap();
    Node::new(0).insert(&mut store, 151, Some(0)).unwrap();
    let owner = Node::new(200);
    assert!(store.has_key(owner, 150));
    assert!(store.has_key(owner, 151));
    assert!(!store.has_key(owner, 152));
    assert_eq!(store.key_value(owner, 150), Some(None));
    assert_eq!(store.key_value(owner, 151), Some(Some(0)));
    assert_eq!(store.key_value(owner, 152), None);
    assert_eq!(store.key_value(Node::new(100), 150), None);
}

#[test]
fn closest_preceding_node_is_the_highest_finger_before_the_key() {
    let store = ring_of(&[0, 30, 65, 110, 160, 230]);
    let n = Node::new(0);
    assert_eq!(n.closest_preceding_node(&store, 200), Ok(Node::new(160)));
    assert_eq!(n.closest_preceding_node(&store, 160), Ok(Node::new(65)));
    assert_eq!(n.closest_preceding_node(&store, 66), Ok(Node::new(65)));
    assert_eq!(n.closest_preceding_node(&store, 65), Ok(Node::new(30)));
    assert_eq!(n.closest_preceding_node(&store, 30), Ok(n));
    assert_eq!(n.closest_preceding_node(&store, 1), Ok(n));
    assert_eq!(n.closest_preceding_node(&store, 0), Ok(Node::new(160)));
    assert_eq!(Node::new(230).closest_preceding_node(&store, 20), Ok(Node::new(0)));
}

#[test]
fn find_predecessor_ends_before_the_key() {
    let store = ring_of(&[0, 30, 65, 110, 160, 230]);
    for from in [0u8, 30, 65, 110, 160, 230] {
        let n = Node::new(from);
        assert_eq!(n.find_predecessor(&store, 200), Ok(Node::new(160)));
        assert_eq!(n.find_predecessor(&store, 230), Ok(Node::new(160)));
        assert_eq!(n.find_predecessor(&store, 231), Ok(Node::new(230)));
        assert_eq!(n.find_predecessor(&store, 0), Ok(Node::new(230)));
        assert_eq!(n.find_predecessor(&store, 1), Ok(Node::new(0)));
        assert_eq!(n.find_successor(&store, 0), Ok(Node::new(0)));
        assert_eq!(n.find_successor(&store, 255), Ok(Node::new(0)));
    }
}

#[test]
fn init_finger_table_fills_the_table_and_links_in_front_of_the_successor() {
    let mut store = ring_of(&[0, 30, 65, 110, 160, 230]);
    let mut n = Node::new(100);
    assert_eq!(n.init_finger_table(&mut store, Node::new(230)), Ok(()));
    assert_eq!(
        fingers(&store, 100),
        vec![Some(110), Some(110), Some(110), Some(110), Some(160), Some(160), Some(230), Some(230)]
    );
    assert_eq!(n.predecessor(&store), Some(Node::new(65)));
    assert_eq!(Node::new(110).predecessor(&store), Some(Node::new(100)));
    // the others have not heard of the new peer yet
    assert_eq!(Node::new(65).successor(&store), Ok(Node::new(110)));
    assert_eq!(store.state_of(n), NodeState::Fresh);
    assert_eq!(store.members(), vec![0, 30, 65, 110, 160, 230]);
}

#[test]
fn join_is_its_three_steps() {
    let mut by_steps = ring_of(&[0, 30, 65, 110, 160, 230]);
    let mut whole = ring_of(&[0, 30, 65, 110, 160, 230]);
    for store in [&mut by_steps, &mut whole] {
        Node::new(0).insert(store, 99, None).unwrap();
        Node::new(0).insert(store, 100, Some(5)).unwrap();
        Node::new(0).insert(store, 101, Some(4)).unwrap();
    }
    let mut n = Node::new(100);
    n.init_finger_table(&mut by_steps, Node::new(0)).unwrap();
    n.update_others(&mut by_steps).unwrap();
    let moved = n.transfer_keys(&mut by_steps).unwrap();
    let records = n.join(&mut whole, Some(Node::new(0))).unwrap();
    assert_eq!(moved, records);
    for id in 0u16..256 {
        let id = id as u8;
        assert_eq!(fingers(&by_steps, id), fingers(&whole, id));
        assert_eq!(Node::new(id).predecessor(&by_steps), Node::new(id).predecessor(&whole));
        assert_eq!(by_steps.keys_of(Node::new(id)), whole.keys_of(Node::new(id)));
    }
    assert_eq!(by_steps.state_of(n), NodeState::Fresh);
    assert_eq!(whole.state_of(n), NodeState::InRing);
}

#[test]
fn update_finger_table_goes_back_while_the_new_peer_is_nearer() {
    let mut store = ring_of(&[0, 30, 65, 110, 160, 230]);
    // finger 6 of 65 starts at 97 and points at 110; so do the fingers 6 of
    // 30 (start 62, points at 65) and 0 (start 32, points at 65) not
    let newcomer = Node::new(100);
    assert_eq!(Node::new(65).update_finger_table(&mut store, newcomer, 6), Ok(()));
    assert_eq!(store.finger(Node::new(65), 6), Some(newcomer));
    assert_eq!(store.finger(Node::new(30), 6), Some(Node::new(65)));
    assert_eq!(store.finger(Node::new(0), 6), Some(Node::new(65)));
    // a peer never takes itself
    assert_eq!(Node::new(100).update_finger_table(&mut store, newcomer, 6), Ok(()));
    assert_eq!(store.finger(newcomer, 6), None);
}

#[test]
fn update_finger_table_stops_at_an_empty_finger() {
    let mut store = ring_of(&[0, 30]);
    assert_eq!(
        Node::new(7).update_finger_table(&mut store, Node::new(20), 2),
        Err(ChordError::MissingSuccessor { node: 7 })
    );
}

#[test]
fn update_finger_table_leave_stops_at_an_empty_finger() {
    let mut store = ring_of(&[0, 30]);
    assert_eq!(
        Node::new(50).update_finger_table_leave(&mut store, Node::new(30), 1, 0),
        Err(ChordError::MissingSuccessor { node: 50 })
    );
    // with nothing to put in the place of the leaver there is nothing to do
    assert_eq!(Node::new(50).update_finger_table_leave(&mut store, Node::new(0), 1, 0), Ok(()));
}

#[test]
fn update_finger_table_leave_replaces_the_leaver_only() {
    let mut store = ring_of(&[0, 30, 65, 110, 160, 230]);
    // fingers 1 to 6 of 30 point at 65; its finger 7 points at 110
    let successor = Node::new(110);
    assert_eq!(Node::new(30).update_finger_table_leave(&mut store, successor, 7, 65), Ok(()));
    assert_eq!(store.finger(Node::new(30), 7), Some(Node::new(110)));
    assert_eq!(Node::new(30).update_finger_table_leave(&mut store, successor, 6, 65), Ok(()));
    assert_eq!(store.finger(Node::new(30), 6), Some(successor));
    // the walk went on to 0, whose finger 6 pointed at 65 too, and ended at 230
    assert_eq!(store.finger(Node::new(0), 6), Some(successor));
    assert_eq!(store.finger(Node::new(230), 6), Some(Node::new(30)));
}

#[test]
fn transfer_keys_leave_hands_over_every_key() {
    let mut store = ring_of(&[0, 100, 200]);
    Node::new(0).insert(&mut store, 1, Some(1)).unwrap();
    Node::new(0).insert(&mut store, 100, None).unwrap();
    Node::new(0).insert(&mut store, 150, Some(7)).unwrap();
    let records = Node::new(100).transfer_keys_leave(&mut store).unwrap();
    assert_eq!(
        records,
        vec![
            "migrate key 1 from node 100 to node 200".to_string(),
            "migrate key 100 from node 100 to node 200".to_string(),
        ]
    );
    assert!(store.keys_of(Node::new(100)).is_empty());
    assert_eq!(
        store.keys_of(Node::new(200)),
        vec![(1, Some(1)), (100, None), (150, Some(7))]
    );
}

#[test]
fn transfer_keys_takes_only_what_the_new_peer_owns() {
    let mut store = ring_of(&[0, 100, 200]);
    for key in [101u8, 120, 150, 151, 199, 200] {
        Node::new(0).insert(&mut store, key, Some(key)).unwrap();
    }
    let mut n = Node::new(150);
    n.init_finger_table(&mut store, Node::new(0)).unwrap();
    n.update_others(&mut store).unwrap();
    let records = n.transfer_keys(&mut store).unwrap();
    assert_eq!(records.len(), 3);
    assert_eq!(store.keys_of(n), vec![(101, Some(101)), (120, Some(120)), (150, Some(150))]);
    assert_eq!(
        store.keys_of(Node::new(200)),
        vec![(151, Some(151)), (199, Some(199)), (200, Some(200))]
    );
}

#[test]
fn transfer_keys_of_a_fresh_peer_misses_its_successor() {
    let mut store = ring_of(&[0, 100, 200]);
    assert_eq!(
        Node::new(5).transfer_keys(&mut store),
        Err(ChordError::MissingSuccessor { node: 5 })
    );
    assert_eq!(
        Node::new(5).transfer_keys_leave(&mut store),
        Err(ChordError::MissingSuccessor { node: 5 })
    );
    assert_eq!(
        Node::new(5).update_others(&mut store),
        Err(ChordError::MissingSuccessor { node: 5 })
    );
    assert_eq!(
        Node::new(5).update_others_leave(&mut store),
        Err(ChordError::MissingSuccessor { node: 5 })
    );
}

/// A small generator of numbers, the same on every run.
struct Numbers(u32);

impl Numbers {
    fn next(&mut self) -> u32 {
        self.0 = self.0.wrapping_mul(1664525).wrapping_add(1013904223);
        self.0 >> 8
    }

    fn below(&mut self, n: u32) -> u32 {
        self.next() % n
    }
}

/// A ring with exact fingers: the peers join in ascending order, each at most
/// half the ring after the one before it.
fn exact_ring(numbers: &mut Numbers) -> NodeStore {
    let mut ids = vec![numbers.below(40) as u8];
    let most = 1 + numbers.below(12) as usize;
    loop {
        let step = 1 + numbers.below(100);
        let next = *ids.last().unwrap() as u32 + step;
        if next > 255 || ids.len() >= most {
            break;
        }
        ids.push(next as u8);
    }
    let store = ring_of(&ids);
    assert!(every_finger_exact(&store));
    store
}

#[test]
fn a_join_keeps_every_peer_with_its_neighbours() {
    let mut numbers = Numbers(7);
    for _ in 0..40 {
        let mut store = exact_ring(&mut numbers);
        for _ in 0..6 {
            let members = store.members();
            let n = numbers.below(256) as u8;
            if members.contains(&n) {
                continue;
            }
            let through = members[numbers.below(members.len() as u32) as usize];
            Node::new(n).join(&mut store, Some(Node::new(through))).unwrap();
            assert!(neighbours_exact(&store));
            let now = store.members();
            for &p in &now {
                for i in 1u8..=8 {
                    assert!(now.contains(&store.finger(Node::new(p), i).unwrap().id()));
                }
            }
        }
    }
}

#[test]
fn a_join_keeps_the_fingers_exact_when_a_peer_lies_in_the_half_ring_before() {
    let mut numbers = Numbers(11);
    let mut kept = 0;
    let mut lost = 0;
    for _ in 0..200 {
        let mut store = exact_ring(&mut numbers);
        let members = store.members();
        let n = numbers.below(256) as u8;
        if members.contains(&n) {
            continue;
        }
        let through = members[numbers.below(members.len() as u32) as usize];
        Node::new(n).join(&mut store, Some(Node::new(through))).unwrap();
        let near = members.iter().any(|&m| dist(m, n) <= 128);
        assert_eq!(every_finger_exact(&store), near, "join of {} to {:?}", n, members);
        if near {
            kept += 1;
        } else {
            lost += 1;
        }
    }
    assert!(kept > 0 && lost > 0);
}

/// Whether the repair after the leave of `d` passes by a peer.
fn passes_by_a_peer(members: &[u8], d: u8) -> bool {
    let rest: Vec<u8> = members.iter().copied().filter(|&m| m != d).collect();
    if rest.is_empty() {
        return false;
    }
    let s = first_at_or_after(&rest, d.wrapping_add(1));
    let p0 = *rest.iter().min_by_key(|&&m| dist(m, d)).unwrap();
    (2u32..=8).any(|i| {
        let w = 1u16 << (i - 1);
        let t = d.wrapping_sub(w as u8);
        rest.contains(&t) && !(t == p0 && s != p0 && dist(s, d) < 2 * w)
    })
}

#[test]
fn a_leave_keeps_the_fingers_exact_unless_the_repair_passes_by_a_peer() {
    let mut numbers = Numbers(3);
    let mut kept = 0;
    let mut lost = 0;
    for round in 0..300 {
        let store = if round % 3 == 0 {
            // rings with peers at round distances, where the repair passes by
            let step = [16u32, 32, 64][numbers.below(3) as usize];
            let ids: Vec<u8> = (0..256 / step).map(|j| (j * step) as u8).collect();
            ring_of(&ids)
        } else {
            exact_ring(&mut numbers)
        };
        let mut store = store;
        assert!(every_finger_exact(&store));
        let members = store.members();
        let d = members[numbers.below(members.len() as u32) as usize];
        Node::new(d).leave(&mut store).unwrap();
        assert!(neighbours_exact(&store));
        let stale = passes_by_a_peer(&members, d);
        assert_eq!(every_finger_exact(&store), !stale, "leave of {} from {:?}", d, members);
        if stale {
            lost += 1;
        } else {
            kept += 1;
        }
        // whatever the fingers, lookups from the others find the owners
        let rest = store.members();
        for &from in &rest {
            for key in (0u16..256).step_by(5) {
                let owner = first_at_or_after(&rest, key as u8);
                assert_eq!(Node::new(from).find_successor(&store, key as u8), Ok(Node::new(owner)));
            }
        }
    }
    assert!(kept > 0 && lost > 0);
}

fn hops(store: &NodeStore, from: u8, key: u8) -> u32 {
    let mut n = Node::new(from);
    let mut hops = 0;
    loop {
        let s = n.successor(store).unwrap();
        if n.is_between_ring_e(key, n.id(), s.id()) {
            return hops;
        }
        n = n.closest_preceding_node(store, key).unwrap();
        hops += 1;
    }
}

#[test]
fn lookups_on_exact_fingers_take_at_most_eight_hops() {
    let mut numbers = Numbers(21);
    for _ in 0..30 {
        let store = exact_ring(&mut numbers);
        for &from in &store.members() {
            for key in 0u16..256 {
                assert!(hops(&store, from, key as u8) <= 8);
            }
        }
    }
}

#[test]
fn lookups_on_inexact_fingers_can_take_a_hop_for_each_peer() {
    // each peer joins just before all the others, so that its upper fingers
    // point at its successor
    let ids: Vec<u8> = (0u8..=20).rev().collect();
    let store = ring_of(&ids);
    assert!(neighbours_exact(&store));
    assert!(!every_finger_exact(&store));
    assert_eq!(hops(&store, 0, 0), 20);
    assert_eq!(Node::new(0).find_successor(&store, 0), Ok(Node::new(0)));
}

#[test]
fn a_copy_of_a_store_is_a_store_of_its_own() {
    let store = ring_of(&[0, 100, 200]);
    let mut copy = store.clone();
    Node::new(50).join(&mut copy, Some(Node::new(0))).unwrap();
    Node::new(0).insert(&mut copy, 60, Some(1)).unwrap();
    assert_eq!(copy.members(), vec![0, 50, 100, 200]);
    assert_eq!(store.members(), vec![0, 100, 200]);
    assert!(store.keys_of(Node::new(100)).is_empty());
    assert_eq!(copy.keys_of(Node::new(100)), vec![(60, Some(1))]);
    assert_eq!(Node::new(0).successor(&store), Ok(Node::new(100)));
    assert_eq!(Node::new(0).successor(&copy), Ok(Node::new(50)));
    let table = store.table(Node::new(0)).clone();
    assert_eq!(table.get_successor_id(), 100);
}
