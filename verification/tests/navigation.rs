use rust_wireshark::FType;
use rust_wireshark::FValue;
use rust_wireshark::ProtoTree;
use rust_wireshark::TreeBuilder;

/// frame
/// ├── eth
/// │   ├── eth.src  ("aa:bb")
/// │   └── eth.dst  ("cc:dd")
/// └── ip
///     └── ip.src   ("10.0.0.1")
fn sample_tree() -> ProtoTree {
    let mut b = TreeBuilder::new("frame".to_string(), None);
    let eth = b.add_node(0, "eth".to_string(), None).unwrap();
    b.add_node(
        eth,
        "eth.src".to_string(),
        Some(FValue::new(
            "aa:bb".to_string(),
            Some(6),
            FType::new(1, 6, "FT_ETHER".to_string()),
        )),
    )
    .unwrap();
    b.add_node(
        eth,
        "eth.dst".to_string(),
        Some(FValue::new(
            "cc:dd".to_string(),
            Some(6),
            FType::new(1, 6, "FT_ETHER".to_string()),
        )),
    )
    .unwrap();
    let ip = b.add_node(0, "ip".to_string(), None).unwrap();
    b.add_node(
        ip,
        "ip.src".to_string(),
        Some(FValue::new(
            "10.0.0.1".to_string(),
            Some(4),
            FType::new(2, 4, "FT_IPv4".to_string()),
        )),
    )
    .unwrap();
    b.finish()
}

#[test]
fn navigation_links() {
    let tree = sample_tree();
    let root = rust_wireshark::ProtoNode::new(&tree, 0, 0);
    assert_eq!(root.get_abbrev(), "frame");
    assert_eq!(root.get_depth(), 0);
    assert!(root.get_parent().is_none());
    assert!(!root.is_leaf());

    let eth = root.get_first_child().unwrap();
    assert_eq!(eth.get_abbrev(), "eth");
    assert_eq!(eth.get_depth(), 1);
    assert_eq!(eth.get_parent().unwrap(), root);

    let ip = eth.get_next().unwrap();
    assert_eq!(ip.get_abbrev(), "ip");
    assert!(ip.get_next().is_none());
    assert_eq!(root.get_last_child().unwrap(), ip);

    let eth_src = eth.get_first_child().unwrap();
    assert_eq!(eth_src.get_abbrev(), "eth.src");
    assert!(eth_src.is_leaf());
    let eth_dst = eth.get_last_child().unwrap();
    assert_eq!(eth_dst.get_abbrev(), "eth.dst");
    assert_eq!(eth_src.get_next().unwrap(), eth_dst);
}

#[test]
fn depth_first_visits_every_node_once() {
    let tree = sample_tree();
    let root = rust_wireshark::ProtoNode::new(&tree, 0, 0);
    let mut it = root.iter_depth_first();
    let mut seen: Vec<String> = Vec::new();
    while let Some(n) = it.next() {
        seen.push(n.get_abbrev());
    }
    assert_eq!(
        seen,
        vec!["frame", "eth", "eth.src", "eth.dst", "ip", "ip.src"]
    );
    assert_eq!(seen.len(), tree.node_count());
}

#[test]
fn breadth_first_visits_same_set_once() {
    let tree = sample_tree();
    let root = rust_wireshark::ProtoNode::new(&tree, 0, 0);
    let mut it = root.iter_breadth_first();
    let mut seen: Vec<String> = Vec::new();
    while let Some(n) = it.next() {
        seen.push(n.get_abbrev());
    }
    assert_eq!(
        seen,
        vec!["frame", "eth", "ip", "eth.src", "eth.dst", "ip.src"]
    );
    let mut dfs_set = seen.clone();
    dfs_set.sort();
    let mut it2 = root.iter_depth_first();
    let mut seen2: Vec<String> = Vec::new();
    while let Some(n) = it2.next() {
        seen2.push(n.get_abbrev());
    }
    seen2.sort();
    assert_eq!(dfs_set, seen2);
    assert_eq!(seen.len(), tree.node_count());
}

#[test]
fn depth_first_from_subtree_stays_inside() {
    let tree = sample_tree();
    let root = rust_wireshark::ProtoNode::new(&tree, 0, 0);
    // "eth" has a next sibling; the walk must not leave its subtree.
    let eth = root.get_first_child().unwrap();
    let mut it = eth.iter_depth_first();
    let mut seen: Vec<String> = Vec::new();
    while let Some(n) = it.next() {
        seen.push(n.get_abbrev());
    }
    assert_eq!(seen, vec!["eth", "eth.src", "eth.dst"]);
}

#[test]
fn single_node_tree_traversals() {
    let b = TreeBuilder::new("frame".to_string(), None);
    let tree = b.finish();
    let root = rust_wireshark::ProtoNode::new(&tree, 0, 0);
    let mut dfs = root.iter_depth_first();
    assert_eq!(dfs.next().unwrap().get_abbrev(), "frame");
    assert!(dfs.next().is_none());
    let mut bfs = root.iter_breadth_first();
    assert_eq!(bfs.next().unwrap().get_abbrev(), "frame");
    assert!(bfs.next().is_none());
    let mut kids = root.iter_children();
    assert!(kids.next().is_none());
}

#[test]
fn children_only_equals_get_children() {
    let tree = sample_tree();
    let root = rust_wireshark::ProtoNode::new(&tree, 0, 0);
    let by_vec: Vec<String> = root.get_children().iter().map(|n| n.get_abbrev()).collect();
    let mut it = root.iter_children();
    let mut by_iter: Vec<String> = Vec::new();
    while let Some(n) = it.next() {
        by_iter.push(n.get_abbrev());
    }
    assert_eq!(by_vec, by_iter);
    assert_eq!(by_vec, vec!["eth", "ip"]);
    // Exactly first-child, then next links.
    let fc = root.get_first_child().unwrap();
    assert_eq!(fc.get_abbrev(), by_vec[0]);
    assert_eq!(fc.get_next().unwrap().get_abbrev(), by_vec[1]);
    assert!(fc.get_next().unwrap().get_next().is_none());
}

#[test]
fn find_exhaustive_finds_value() {
    let tree = sample_tree();
    let root = rust_wireshark::ProtoNode::new(&tree, 0, 0);
    let node = root.find_exhaustive("ip.src".to_string()).unwrap();
    assert_eq!(node.get_abbrev(), "ip.src");
    let fv = node.get_fvalue().unwrap();
    assert_eq!(fv.to_string(), "10.0.0.1");
    assert_eq!(fv.length(), Some(4));
    assert_eq!(fv.get_ftype_name(), "FT_IPv4");
    assert_eq!(fv.get_ftype().get_id(), 2);
    assert_eq!(fv.get_ftype().get_wire_size(), 4);
    assert!(root.find_exhaustive("tcp.port".to_string()).is_none());
}

#[test]
fn find_hierarchical_shallow_terminal() {
    // a → b → c as a direct-child chain: abbreviations accumulate by dots.
    let mut b = TreeBuilder::new("frame".to_string(), None);
    let a = b.add_node(0, "a".to_string(), None).unwrap();
    let ab = b.add_node(a, "a.b".to_string(), None).unwrap();
    b.add_node(ab, "a.b.c".to_string(), None).unwrap();
    let tree = b.finish();
    let root = rust_wireshark::ProtoNode::new(&tree, 0, 0);
    // The terminal segment after the last dot is never matched: the node
    // found at the last processed dot is returned, i.e. "a.b", not "a.b.c".
    let hit = root.find_hierarchical("a.b.c".to_string()).unwrap();
    assert_eq!(hit.get_abbrev(), "a.b");
    // A path ending in a dot reaches the leaf.
    let leaf = root.find_hierarchical("a.b.c.".to_string()).unwrap();
    assert_eq!(leaf.get_abbrev(), "a.b.c");
    // A missing segment among direct children fails.
    assert!(root.find_hierarchical("a.x.c".to_string()).is_none());
}

#[test]
fn builder_refuses_absent_parent() {
    let mut b = TreeBuilder::new("frame".to_string(), None);
    assert!(b.add_node(7, "eth".to_string(), None).is_none());
    assert_eq!(b.finish().node_count(), 1);
}
