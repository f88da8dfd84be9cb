use chord::model::ChordError;
use chord::node::{Node, NodeStore};
use chord::text::{
    finger_record, header_record, lookup_record, migration_record, neighbours_record,
    push_decimal, push_decimal_or_none,
};

fn six_peers() -> NodeStore {
    let ids: [u8; 6] = [0, 30, 65, 110, 160, 230];
    let mut store = NodeStore::new();
    Node::new(0).join(&mut store, None).unwrap();
    for w in ids.windows(2) {
        Node::new(w[1]).join(&mut store, Some(Node::new(w[0]))).unwrap();
    }
    store
}

#[test]
fn decimal_of_every_identifier() {
    for n in 0u16..256 {
        let mut out = String::from("x");
        push_decimal(&mut out, n as u8);
        assert_eq!(out, format!("x{}", n));
    }
}

#[test]
fn decimal_of_an_optional_value() {
    let mut out = String::new();
    push_decimal_or_none(&mut out, Some(7));
    out.push(' ');
    push_decimal_or_none(&mut out, None);
    out.push(' ');
    push_decimal_or_none(&mut out, Some(255));
    assert_eq!(out, "7 None 255");
}

#[test]
fn migration_record_text() {
    assert_eq!(migration_record(100, 110, 100), "migrate key 100 from node 110 to node 100");
    assert_eq!(migration_record(0, 255, 9), "migrate key 0 from node 255 to node 9");
}

#[test]
fn lookup_record_text() {
    assert_eq!(
        lookup_record(200, 65, 230, None),
        "Look-up result of key 200 from node 65 with path [65,230] value is None"
    );
    assert_eq!(
        lookup_record(60, 65, 65, Some(10)),
        "Look-up result of key 60 from node 65 with path [65] value is 10"
    );
}

#[test]
fn table_line_texts() {
    assert_eq!(header_record(0), "----------Node id:0----------");
    assert_eq!(neighbours_record(30, 230), "Successor:  30 Predecessor: 230");
    assert_eq!(finger_record(1, 66, 67, 110), "| k =  1 [ 66, 67 )\tsucc. = 110");
}

#[test]
fn error_messages() {
    assert_eq!(ChordError::MissingSuccessor { node: 7 }.message(), "Node 7: successor is None");
    assert_eq!(
        ChordError::MissingFingerStart { node: 7, index: 0 }.message(),
        "Node 7: cannot find start of index 0"
    );
    assert_eq!(
        ChordError::MissingPredecessor { node: 200 }.message(),
        "Node 200: predecessor is None"
    );
}

#[test]
fn pretty_print_of_peer_0() {
    let store = six_peers();
    let expected = vec![
        "----------Node id:0----------",
        "Successor:  30 Predecessor: 230",
        "FingerTables:",
        "| k =  1 [ 1, 2 )\tsucc. = 30",
        "| k =  2 [ 2, 4 )\tsucc. = 30",
        "| k =  3 [ 4, 8 )\tsucc. = 30",
        "| k =  4 [ 8, 16 )\tsucc. = 30",
        "| k =  5 [ 16, 32 )\tsucc. = 30",
        "| k =  6 [ 32, 64 )\tsucc. = 65",
        "| k =  7 [ 64, 128 )\tsucc. = 65",
        "| k =  8 [ 128, 0 )\tsucc. = 160",
        "------------------------------",
        "******************************",
    ];
    assert_eq!(Node::new(0).pretty_print(&store), expected);
}

#[test]
fn pretty_print_of_peer_230() {
    let store = six_peers();
    let expected = vec![
        "----------Node id:230----------",
        "Successor:  0 Predecessor: 160",
        "FingerTables:",
        "| k =  1 [ 231, 232 )\tsucc. = 0",
        "| k =  2 [ 232, 234 )\tsucc. = 0",
        "| k =  3 [ 234, 238 )\tsucc. = 0",
        "| k =  4 [ 238, 246 )\tsucc. = 0",
        "| k =  5 [ 246, 6 )\tsucc. = 0",
        "| k =  6 [ 6, 38 )\tsucc. = 30",
        "| k =  7 [ 38, 102 )\tsucc. = 65",
        "| k =  8 [ 102, 230 )\tsucc. = 110",
        "------------------------------",
        "******************************",
    ];
    assert_eq!(Node::new(230).pretty_print(&store), expected);
}

#[test]
fn print_keys_lists_the_keys_in_ascending_order() {
    let mut store = six_peers();
    Node::new(0).insert(&mut store, 60, Some(10)).unwrap();
    Node::new(0).insert(&mut store, 45, Some(3)).unwrap();
    Node::new(0).insert(&mut store, 50, None).unwrap();
    assert_eq!(
        Node::new(65).print_keys(&store),
        vec!["----------Node id:65----------", "{45: 3, 50: None, 60: 10}"]
    );
    assert_eq!(Node::new(30).print_keys(&store), vec!["----------Node id:30----------", "{}"]);
}

#[test]
fn print_lookup_results_lists_the_trace() {
    let mut store = six_peers();
    let n = Node::new(160);
    n.clone().insert(&mut store, 3, Some(3)).unwrap();
    n.clone().insert(&mut store, 161, None).unwrap();
    n.find(&mut store, 3).unwrap();
    n.find(&mut store, 4).unwrap();
    n.find(&mut store, 161).unwrap();
    assert_eq!(
        n.print_lookup_results(&store),
        vec![
            "----------Node id:160----------",
            "Look-up result of key 3 from node 160 with path [160,30] value is 3",
            "Look-up result of key 161 from node 160 with path [160,230] value is None",
            "------------------------------",
        ]
    );
    assert_eq!(
        Node::new(0).print_lookup_results(&store),
        vec!["----------Node id:0----------", "------------------------------"]
    );
}
