use chord::node::{Node, NodeStore};

fn show(lines: Vec<String>) {
    for line in lines {
        println!("{}", line);
    }
}

#[test]
fn test_build_node() {
    let mut store = NodeStore::new();
    let mut node0 = Node::new(0);
    let mut node1 = Node::new(30);
    let mut node2 = Node::new(65);
    let mut node3 = Node::new(110);
    let mut node4 = Node::new(160);
    let mut node5 = Node::new(230);
    node0.join(&mut store, None).unwrap();
    node1.join(&mut store, Some(node0)).unwrap();
    node2.join(&mut store, Some(node1)).unwrap();
    node3.join(&mut store, Some(node2)).unwrap();
    node4.join(&mut store, Some(node3)).unwrap();
    node5.join(&mut store, Some(node4)).unwrap();
}

#[test]
fn test_sample_case() {
    let mut store = NodeStore::new();
    let mut n0 = Node::new(0);
    let mut n1 = Node::new(30);
    let mut n2 = Node::new(65);
    let mut n3 = Node::new(110);
    let mut n4 = Node::new(160);
    let mut n5 = Node::new(230);
    show(n0.join(&mut store, None).unwrap());
    show(n1.join(&mut store, Some(n0.clone())).unwrap());
    show(n2.join(&mut store, Some(n1.clone())).unwrap());
    show(n3.join(&mut store, Some(n2.clone())).unwrap());
    show(n4.join(&mut store, Some(n3.clone())).unwrap());
    show(n5.join(&mut store, Some(n4.clone())).unwrap());
    show(n0.pretty_print(&store));
    show(n1.pretty_print(&store));
    show(n2.pretty_print(&store));
    show(n3.pretty_print(&store));
    show(n4.pretty_print(&store));
    show(n5.pretty_print(&store));

    n0.insert(&mut store, 3, Some(3)).unwrap();
    n1.insert(&mut store, 200, None).unwrap();
    n2.insert(&mut store, 123, None).unwrap();
    n3.insert(&mut store, 45, Some(3)).unwrap();
    n4.insert(&mut store, 99, None).unwrap();
    n2.insert(&mut store, 60, Some(10)).unwrap();
    n0.insert(&mut store, 50, Some(8)).unwrap();
    n3.insert(&mut store, 100, Some(5)).unwrap();
    n3.insert(&mut store, 101, Some(4)).unwrap();
    n3.insert(&mut store, 102, Some(6)).unwrap();
    n5.insert(&mut store, 240, Some(8)).unwrap();
    n5.insert(&mut store, 250, Some(10)).unwrap();

    show(n0.print_keys(&store));
    show(n1.print_keys(&store));
    show(n2.print_keys(&store));
    show(n3.print_keys(&store));
    show(n4.print_keys(&store));
    show(n5.print_keys(&store));

    let mut n6 = Node::new(100);
    show(n6.join(&mut store, Some(n5.clone())).unwrap());

    let keys: [u8; 12] = [3, 200, 123, 45, 99, 60, 50, 100, 101, 102, 240, 250];
    for from in [n0, n1, n2, n3, n4, n5, n5, n6] {
        for key in keys {
            from.find(&mut store, key).unwrap();
        }
    }

    show(n1.print_lookup_results(&store));
    show(n2.print_lookup_results(&store));
    show(n3.print_lookup_results(&store));
    show(n4.print_lookup_results(&store));
    show(n5.print_lookup_results(&store));
    show(n6.print_lookup_results(&store));

    show(n2.leave(&mut store).unwrap());
    show(n0.print_keys(&store));
    show(n1.print_keys(&store));
    show(n3.print_keys(&store));
    show(n4.print_keys(&store));
    show(n5.print_keys(&store));
    show(n6.print_keys(&store));
}
