use pathrank::custom_tree::Node;

#[test]
fn insert_then_get() {
    let mut root: Node<&str> = Node::new(50, "root");
    root.insert(20, "low");
    root.insert(80, "high");
    root.insert(10, "lowest");
    assert_eq!(root.get(&20), Some(&"low"));
    assert_eq!(root.get(&80), Some(&"high"));
    assert_eq!(root.get(&10), Some(&"lowest"));
    assert_eq!(root.get(&33), None);
    // The descent goes higher on an equal key, so a key with a higher
    // child is not found at the stop of the search.
    assert_eq!(root.get(&50), None);
}

#[test]
fn nearest_returns_the_search_stop() {
    let mut root: Node<u64> = Node::new(50, 50);
    root.insert(20, 20);
    root.insert(80, 80);
    // The descent for 25 ends at the node keyed 20.
    assert_eq!(root.nearest(&25), Some(&20));
    assert_eq!(root.nearest(&90), Some(&80));
}

#[test]
fn nearest_node_finds_equal_key() {
    let root: Node<u64> = Node::new(7, 70);
    let near = root.nearest_node(&7);
    assert_eq!(near.position, 7);
    assert_eq!(near.value, 70);
}

#[test]
fn nearest_n_walks_both_chains() {
    let mut root: Node<u64> = Node::new(50, 50);
    root.insert(80, 80);
    root.insert(90, 90);
    root.insert(20, 20);
    // The search for 60 stops at 80 (whose higher chain is 80, 90 and
    // whose lower chain is just 80).
    let r = root.nearest_n(&60, 2);
    let values: Vec<u64> = r.into_iter().copied().collect();
    assert_eq!(values, vec![80, 90, 80]);
}

#[test]
fn nearest_n_zero_is_empty() {
    let root: Node<u64> = Node::new(1, 1);
    assert_eq!(root.nearest_n(&1, 0).len(), 0);
}
