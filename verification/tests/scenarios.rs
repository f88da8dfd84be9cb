use chord::model::{ChordError, NodeState};
use chord::node::{Node, NodeStore};

const IDS: [u8; 6] = [0, 30, 65, 110, 160, 230];

/// Peer 0 starts the ring; each of the others joins through the peer before it.
fn six_peers() -> NodeStore {
    let mut store = NodeStore::new();
    Node::new(0).join(&mut store, None).unwrap();
    for w in IDS.windows(2) {
        let records = Node::new(w[1]).join(&mut store, Some(Node::new(w[0]))).unwrap();
        assert!(records.is_empty());
    }
    store
}

fn six_peers_with_keys() -> NodeStore {
    let mut store = six_peers();
    let inserts: [(u8, u8, Option<u8>); 12] = [
        (0, 3, Some(3)),
        (30, 200, None),
        (65, 123, None),
        (110, 45, Some(3)),
        (160, 99, None),
        (65, 60, Some(10)),
        (0, 50, Some(8)),
        (110, 100, Some(5)),
        (110, 101, Some(4)),
        (110, 102, Some(6)),
        (230, 240, Some(8)),
        (230, 250, Some(10)),
    ];
    for (from, key, value) in inserts {
        Node::new(from).insert(&mut store, key, value).unwrap();
    }
    store
}

fn successor_id(store: &NodeStore, id: u8) -> u8 {
    Node::new(id).successor(store).unwrap().id()
}

fn predecessor_id(store: &NodeStore, id: u8) -> u8 {
    Node::new(id).predecessor(store).unwrap().id()
}

fn fingers(store: &NodeStore, id: u8) -> Vec<u8> {
    (1u8..=8).map(|i| store.finger(Node::new(id), i).unwrap().id()).collect()
}

fn keys(store: &NodeStore, id: u8) -> Vec<u8> {
    store.keys_of(Node::new(id)).into_iter().map(|(k, _)| k).collect()
}

/// The first of `members` at or after `k`, going clockwise.
fn first_at_or_after(members: &[u8], k: u8) -> u8 {
    let mut x = k;
    loop {
        if members.contains(&x) {
            return x;
        }
        x = x.wrapping_add(1);
    }
}

fn assert_every_finger_exact(store: &NodeStore) {
    let members = store.members();
    for &p in &members {
        for i in 1u8..=8 {
            let start = store.table(Node::new(p)).get_start(i).unwrap();
            let node = store.finger(Node::new(p), i).unwrap().id();
            assert_eq!(node, first_at_or_after(&members, start), "finger {} of peer {}", i, p);
        }
        let next = first_at_or_after(&members, p.wrapping_add(1));
        assert_eq!(successor_id(store, p), next);
        assert_eq!(predecessor_id(store, next), p);
    }
}

fn assert_every_key_with_its_owner(store: &NodeStore) {
    let members = store.members();
    for p in 0u16..256 {
        let p = p as u8;
        for (k, _) in store.keys_of(Node::new(p)) {
            assert_eq!(first_at_or_after(&members, k), p, "key {}", k);
        }
    }
}

#[test]
fn six_peer_ring_peer_0_neighbours() {
    let store = six_peers();
    assert_eq!(successor_id(&store, 0), 30);
    assert_eq!(predecessor_id(&store, 0), 230);
}

#[test]
fn six_peer_ring_peer_30_neighbours() {
    let store = six_peers();
    assert_eq!(successor_id(&store, 30), 65);
    assert_eq!(predecessor_id(&store, 30), 0);
}

#[test]
fn six_peer_ring_peer_230_neighbours() {
    let store = six_peers();
    assert_eq!(successor_id(&store, 230), 0);
    assert_eq!(predecessor_id(&store, 230), 160);
}

#[test]
fn six_peer_ring_peer_65_fingers() {
    let store = six_peers();
    let n = Node::new(65);
    assert_eq!(store.table(n).get_start(1), Ok(66));
    assert_eq!(store.finger(n, 1), Some(Node::new(110)));
    assert_eq!(store.table(n).get_start(8), Ok(193));
    assert_eq!(store.finger(n, 8), Some(Node::new(230)));
}

#[test]
fn six_peer_ring_all_tables() {
    let store = six_peers();
    assert_eq!(store.members(), vec![0, 30, 65, 110, 160, 230]);
    assert_eq!(fingers(&store, 0), vec![30, 30, 30, 30, 30, 65, 65, 160]);
    assert_eq!(fingers(&store, 30), vec![65, 65, 65, 65, 65, 65, 110, 160]);
    assert_eq!(fingers(&store, 65), vec![110, 110, 110, 110, 110, 110, 160, 230]);
    assert_eq!(fingers(&store, 110), vec![160, 160, 160, 160, 160, 160, 230, 0]);
    assert_eq!(fingers(&store, 160), vec![230, 230, 230, 230, 230, 230, 230, 65]);
    assert_eq!(fingers(&store, 230), vec![0, 0, 0, 0, 0, 30, 65, 110]);
    assert_every_finger_exact(&store);
    for id in IDS {
        assert_eq!(store.state_of(Node::new(id)), NodeState::InRing);
    }
    assert_eq!(store.state_of(Node::new(1)), NodeState::Fresh);
}

#[test]
fn inserts_land_on_peer_0() {
    let store = six_peers_with_keys();
    assert_eq!(store.keys_of(Node::new(0)), vec![(240, Some(8)), (250, Some(10))]);
}

#[test]
fn inserts_land_on_peer_30() {
    let store = six_peers_with_keys();
    assert_eq!(store.keys_of(Node::new(30)), vec![(3, Some(3))]);
}

#[test]
fn inserts_land_on_peer_65() {
    let store = six_peers_with_keys();
    assert_eq!(store.keys_of(Node::new(65)), vec![(45, Some(3)), (50, Some(8)), (60, Some(10))]);
}

#[test]
fn inserts_land_on_peer_110() {
    let store = six_peers_with_keys();
    assert_eq!(
        store.keys_of(Node::new(110)),
        vec![(99, None), (100, Some(5)), (101, Some(4)), (102, Some(6))]
    );
}

#[test]
fn inserts_land_on_peer_160() {
    let store = six_peers_with_keys();
    assert_eq!(store.keys_of(Node::new(160)), vec![(123, None)]);
}

#[test]
fn inserts_land_on_peer_230() {
    let store = six_peers_with_keys();
    assert_eq!(store.keys_of(Node::new(230)), vec![(200, None)]);
}

#[test]
fn every_inserted_key_is_held_once_by_its_owner() {
    let store = six_peers_with_keys();
    assert_every_key_with_its_owner(&store);
    let mut held: Vec<u8> = (0u16..256).flat_map(|p| keys(&store, p as u8)).collect();
    held.sort();
    assert_eq!(held, vec![3, 45, 50, 60, 99, 100, 101, 102, 123, 200, 240, 250]);
}

#[test]
fn lookup_of_a_key_without_value_records_the_path() {
    let mut store = six_peers_with_keys();
    let n = Node::new(65);
    assert_eq!(n.find_successor(&store, 200), Ok(Node::new(230)));
    assert_eq!(n.find(&mut store, 200), Ok(None));
    assert_eq!(
        store.lookup_results(n),
        vec!["Look-up result of key 200 from node 65 with path [65,230] value is None".to_string()]
    );
}

#[test]
fn lookup_from_peer_0_of_key_50() {
    let mut store = six_peers_with_keys();
    let n = Node::new(0);
    assert_eq!(n.find(&mut store, 50), Ok(Some(8)));
    assert_eq!(
        store.lookup_results(n),
        vec!["Look-up result of key 50 from node 0 with path [0,65] value is 8".to_string()]
    );
}

#[test]
fn lookup_of_a_local_key_has_a_path_of_one() {
    let mut store = six_peers_with_keys();
    let n = Node::new(65);
    assert_eq!(n.find(&mut store, 60), Ok(Some(10)));
    assert_eq!(
        store.lookup_results(n),
        vec!["Look-up result of key 60 from node 65 with path [65] value is 10".to_string()]
    );
}

#[test]
fn lookup_of_an_absent_key_records_nothing() {
    let mut store = six_peers_with_keys();
    let n = Node::new(65);
    assert_eq!(n.find(&mut store, 61), Ok(None));
    assert!(store.lookup_results(n).is_empty());
}

#[test]
fn join_of_peer_100_moves_its_keys_from_peer_110() {
    let mut store = six_peers_with_keys();
    let records = Node::new(100).join(&mut store, Some(Node::new(230))).unwrap();
    // 110 keeps what lies in (100, 110]; what lies in (65, 100] goes to 100
    assert_eq!(store.keys_of(Node::new(110)), vec![(101, Some(4)), (102, Some(6))]);
    assert_eq!(
        records,
        vec![
            "migrate key 99 from node 110 to node 100".to_string(),
            "migrate key 100 from node 110 to node 100".to_string(),
        ]
    );
    assert_every_key_with_its_owner(&store);
}

#[test]
fn join_of_peer_100_key_store() {
    let mut store = six_peers_with_keys();
    Node::new(100).join(&mut store, Some(Node::new(230))).unwrap();
    assert_eq!(store.keys_of(Node::new(100)), vec![(99, None), (100, Some(5))]);
    assert_eq!(store.state_of(Node::new(100)), NodeState::InRing);
}

#[test]
fn join_of_peer_100_patches_the_tables_of_the_others() {
    let mut store = six_peers_with_keys();
    Node::new(100).join(&mut store, Some(Node::new(230))).unwrap();
    assert_eq!(fingers(&store, 0), vec![30, 30, 30, 30, 30, 65, 65, 160]);
    assert_eq!(fingers(&store, 30), vec![65, 65, 65, 65, 65, 65, 100, 160]);
    assert_eq!(fingers(&store, 65), vec![100, 100, 100, 100, 100, 100, 160, 230]);
    assert_eq!(fingers(&store, 100), vec![110, 110, 110, 110, 160, 160, 230, 230]);
    assert_eq!(fingers(&store, 110), vec![160, 160, 160, 160, 160, 160, 230, 0]);
    assert_eq!(fingers(&store, 160), vec![230, 230, 230, 230, 230, 230, 230, 65]);
    assert_eq!(fingers(&store, 230), vec![0, 0, 0, 0, 0, 30, 65, 110]);
    assert_eq!(predecessor_id(&store, 100), 65);
    assert_eq!(predecessor_id(&store, 110), 100);
    assert_every_finger_exact(&store);
    for from in [0u8, 30, 65, 100, 110, 160, 230] {
        let n = Node::new(from);
        for key in 66u8..=100 {
            assert_eq!(n.find_successor(&store, key), Ok(Node::new(100)));
        }
        for key in 101u8..=110 {
            assert_eq!(n.find_successor(&store, key), Ok(Node::new(110)));
        }
    }
}

#[test]
fn leave_of_peer_65_moves_its_keys_to_peer_110() {
    let mut store = six_peers_with_keys();
    let records = Node::new(65).leave(&mut store).unwrap();
    assert_eq!(
        store.keys_of(Node::new(110)),
        vec![
            (45, Some(3)),
            (50, Some(8)),
            (60, Some(10)),
            (99, None),
            (100, Some(5)),
            (101, Some(4)),
            (102, Some(6)),
        ]
    );
    assert!(store.keys_of(Node::new(65)).is_empty());
    assert_eq!(
        records,
        vec![
            "migrate key 45 from node 65 to node 110".to_string(),
            "migrate key 50 from node 65 to node 110".to_string(),
            "migrate key 60 from node 65 to node 110".to_string(),
        ]
    );
    assert_every_key_with_its_owner(&store);
}

#[test]
fn leave_of_peer_65_links_its_neighbours() {
    let mut store = six_peers_with_keys();
    Node::new(65).leave(&mut store).unwrap();
    assert_eq!(successor_id(&store, 30), 110);
    assert_eq!(predecessor_id(&store, 110), 30);
    assert_eq!(store.state_of(Node::new(65)), NodeState::Detached);
    assert_eq!(store.members(), vec![0, 30, 110, 160, 230]);
}

#[test]
fn leave_of_peer_65_leaves_no_finger_on_it() {
    let mut store = six_peers_with_keys();
    Node::new(65).leave(&mut store).unwrap();
    for id in [0u8, 30, 110, 160, 230] {
        for i in 1u8..=8 {
            assert_ne!(store.finger(Node::new(id), i), Some(Node::new(65)));
        }
        assert_ne!(Node::new(id).predecessor(&store), Some(Node::new(65)));
    }
    assert_eq!(fingers(&store, 0), vec![30, 30, 30, 30, 30, 110, 110, 160]);
    assert_eq!(fingers(&store, 30), vec![110, 110, 110, 110, 110, 110, 110, 160]);
    assert_eq!(fingers(&store, 160), vec![230, 230, 230, 230, 230, 230, 230, 110]);
    assert_eq!(fingers(&store, 230), vec![0, 0, 0, 0, 0, 30, 110, 110]);
    assert_every_finger_exact(&store);
}

#[test]
fn insert_then_find_from_every_peer() {
    let mut store = six_peers();
    for (j, from) in IDS.iter().enumerate() {
        for key in (0u16..256).step_by(7) {
            let key = key as u8;
            let value = if key % 2 == 0 { Some(key / 2) } else { None };
            Node::new(*from).insert(&mut store, key, value).unwrap();
            let reader = Node::new(IDS[(j + 3) % 6]);
            assert_eq!(reader.find(&mut store, key), Ok(value));
            assert!(store.keys_of(reader.find_successor(&store, key).unwrap()).contains(&(key, value)));
        }
    }
    assert_every_key_with_its_owner(&store);
}

#[test]
fn remove_takes_the_key_from_its_owner() {
    let mut store = six_peers_with_keys();
    Node::new(160).remove(&mut store, 50).unwrap();
    assert_eq!(store.keys_of(Node::new(65)), vec![(45, Some(3)), (60, Some(10))]);
    assert_eq!(Node::new(0).find(&mut store, 50), Ok(None));
    Node::new(160).remove(&mut store, 51).unwrap();
    assert_eq!(store.keys_of(Node::new(65)), vec![(45, Some(3)), (60, Some(10))]);
}

#[test]
fn insert_overwrites_the_value() {
    let mut store = six_peers_with_keys();
    Node::new(230).insert(&mut store, 50, None).unwrap();
    assert_eq!(store.keys_of(Node::new(65)), vec![(45, Some(3)), (50, None), (60, Some(10))]);
}

#[test]
fn lookups_take_at_most_eight_hops() {
    let store = six_peers();
    for from in IDS {
        for key in 0u16..256 {
            let key = key as u8;
            let mut n = Node::new(from);
            let mut hops = 0;
            loop {
                let s = n.successor(&store).unwrap();
                if n.is_between_ring_e(key, n.id(), s.id()) {
                    break;
                }
                n = n.closest_preceding_node(&store, key).unwrap();
                hops += 1;
            }
            assert!(hops <= 8);
            assert_eq!(Node::new(from).find_predecessor(&store, key), Ok(n));
        }
    }
}

#[test]
fn join_then_leave_gives_back_the_lookups() {
    let mut store = six_peers_with_keys();
    let mut before = Vec::new();
    for from in IDS {
        for key in 0u16..256 {
            before.push(Node::new(from).find(&mut store, key as u8).unwrap());
        }
    }
    Node::new(100).join(&mut store, Some(Node::new(160))).unwrap();
    Node::new(100).leave(&mut store).unwrap();
    let mut after = Vec::new();
    for from in IDS {
        for key in 0u16..256 {
            after.push(Node::new(from).find(&mut store, key as u8).unwrap());
        }
    }
    assert_eq!(before, after);
    assert_every_finger_exact(&store);
}

#[test]
fn first_peer_points_at_itself() {
    let mut store = NodeStore::new();
    let mut n = Node::new(77);
    assert_eq!(n.join(&mut store, None), Ok(vec![]));
    assert_eq!(fingers(&store, 77), vec![77; 8]);
    assert_eq!(predecessor_id(&store, 77), 77);
    assert_eq!(store.members(), vec![77]);
    for key in 0u16..256 {
        assert_eq!(n.find_successor(&store, key as u8), Ok(n));
        assert_eq!(n.find_predecessor(&store, key as u8), Ok(n));
    }
}

#[test]
fn last_peer_leaves_an_empty_ring() {
    let mut store = NodeStore::new();
    let mut n = Node::new(77);
    n.join(&mut store, None).unwrap();
    n.insert(&mut store, 5, Some(1)).unwrap();
    assert_eq!(n.leave(&mut store), Ok(vec!["migrate key 5 from node 77 to node 77".to_string()]));
    assert!(store.members().is_empty());
    assert!(store.keys_of(n).is_empty());
    assert_eq!(store.state_of(n), NodeState::Detached);
}

#[test]
fn leave_of_a_peer_that_never_joined_misses_its_predecessor() {
    let mut store = six_peers();
    assert_eq!(
        Node::new(7).leave(&mut store),
        Err(ChordError::MissingPredecessor { node: 7 })
    );
    assert_eq!(store.state_of(Node::new(7)), NodeState::Fresh);
    assert_every_finger_exact(&store);
}

#[test]
fn operations_on_a_fresh_peer_miss_its_successor() {
    let mut store = six_peers();
    let mut fresh = Node::new(7);
    let missing = ChordError::MissingSuccessor { node: 7 };
    assert_eq!(fresh.successor(&store), Err(missing));
    assert_eq!(fresh.predecessor(&store), None);
    assert_eq!(fresh.find_predecessor(&store, 1), Err(missing));
    assert_eq!(fresh.find_successor(&store, 1), Err(missing));
    assert_eq!(fresh.find(&mut store, 1), Err(missing));
    assert_eq!(fresh.insert(&mut store, 1, None), Err(missing));
    assert_eq!(fresh.remove(&mut store, 1), Err(missing));
    assert_eq!(fresh.closest_preceding_node(&store, 1), Ok(fresh));
    assert!(store.keys_of(Node::new(30)).is_empty());
}

#[test]
fn join_through_a_fresh_peer_fails_and_changes_nothing() {
    let mut store = six_peers();
    let mut n = Node::new(100);
    assert_eq!(
        n.join(&mut store, Some(Node::new(7))),
        Err(ChordError::MissingSuccessor { node: 7 })
    );
    assert_eq!(store.state_of(n), NodeState::Fresh);
    assert_eq!(store.finger(n, 1), None);
    assert_eq!(n.predecessor(&store), None);
    assert_eq!(store.members(), vec![0, 30, 65, 110, 160, 230]);
    assert_every_finger_exact(&store);
}

#[test]
fn start_of_a_finger_that_is_not_there() {
    let store = NodeStore::new();
    let table = store.table(Node::new(9));
    assert_eq!(table.get_start(0), Err(ChordError::MissingFingerStart { node: 9, index: 0 }));
    assert_eq!(table.get_start(9), Err(ChordError::MissingFingerStart { node: 9, index: 9 }));
    assert_eq!(table.get_start(1), Ok(10));
    assert_eq!(table.get_start(8), Ok(137));
}

#[test]
fn a_peer_far_behind_the_others_keeps_fingers_on_them() {
    // no peer lies in the half of the ring before 200, so its upper fingers,
    // found through peer 0, point at peer 0
    let mut store = NodeStore::new();
    Node::new(0).join(&mut store, None).unwrap();
    Node::new(200).join(&mut store, Some(Node::new(0))).unwrap();
    assert_eq!(fingers(&store, 200), vec![0; 8]);
    assert_eq!(fingers(&store, 0), vec![200; 8]);
    assert_eq!(successor_id(&store, 0), 200);
    assert_eq!(successor_id(&store, 200), 0);
    assert_eq!(predecessor_id(&store, 0), 200);
    assert_eq!(predecessor_id(&store, 200), 0);
    for from in [0u8, 200] {
        for key in 0u16..256 {
            let key = key as u8;
            let owner = if (1..=200).contains(&key) { 200 } else { 0 };
            assert_eq!(Node::new(from).find_successor(&store, key), Ok(Node::new(owner)));
        }
    }
}

#[test]
fn a_peer_half_a_ring_ahead_keeps_its_finger_on_the_leaver() {
    // peer 192 lies 2^7 before the leaving peer 64: the repair for finger 8
    // starts at the peer before 192
    let mut store = NodeStore::new();
    Node::new(64).join(&mut store, None).unwrap();
    Node::new(192).join(&mut store, Some(Node::new(64))).unwrap();
    assert_every_finger_exact(&store);
    Node::new(64).leave(&mut store).unwrap();
    assert_eq!(fingers(&store, 192), vec![192, 192, 192, 192, 192, 192, 192, 64]);
    assert_eq!(successor_id(&store, 192), 192);
    assert_eq!(predecessor_id(&store, 192), 192);
}

#[test]
fn joins_in_any_order_link_every_peer_to_the_next() {
    let order: [u8; 9] = [128, 3, 250, 64, 65, 200, 0, 129, 31];
    let mut store = NodeStore::new();
    Node::new(order[0]).join(&mut store, None).unwrap();
    for j in 1..order.len() {
        let through = Node::new(order[(j * 5) % j]);
        Node::new(order[j]).join(&mut store, Some(through)).unwrap();
        let members = store.members();
        for &p in &members {
            let next = first_at_or_after(&members, p.wrapping_add(1));
            assert_eq!(successor_id(&store, p), next);
            assert_eq!(predecessor_id(&store, next), p);
            for i in 1u8..=8 {
                assert!(members.contains(&store.finger(Node::new(p), i).unwrap().id()));
            }
            for key in (0u16..256).step_by(11) {
                let owner = first_at_or_after(&members, key as u8);
                assert_eq!(Node::new(p).find_successor(&store, key as u8), Ok(Node::new(owner)));
            }
        }
    }
}
