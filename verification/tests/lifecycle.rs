use rust_wireshark::DFilter;
use rust_wireshark::Error;
use rust_wireshark::FType;
use rust_wireshark::FValue;
use rust_wireshark::ProtoTree;
use rust_wireshark::Session;
use rust_wireshark::TreeBuilder;
use rust_wireshark::WtapRec;

/// frame → udp → udp.port (value "53")
fn decoded_tree() -> ProtoTree {
    let mut b = TreeBuilder::new("frame".to_string(), None);
    let udp = b.add_node(0, "udp".to_string(), None).unwrap();
    b.add_node(
        udp,
        "udp.port".to_string(),
        Some(FValue::new(
            "53".to_string(),
            Some(2),
            FType::new(3, 2, "FT_UINT16".to_string()),
        )),
    )
    .unwrap();
    b.finish()
}

#[test]
fn root_node_fails_until_dissected() {
    let session = Session::new();
    let mut rec = WtapRec::new();
    rec.set_file_type(1);
    let mut prec = session.new_prec(&mut rec);
    assert!(matches!(prec.get_root_node(), Err(Error::NotDissected)));
    assert!(matches!(prec.get_frames(), Err(Error::NotDissected)));
    prec.dissect(decoded_tree());
    let r1 = prec.get_root_node().unwrap();
    assert_eq!(r1.get_abbrev(), "frame");
    assert_eq!(r1.get_depth(), 0);
    // Repeated calls return equal root handles.
    let r2 = prec.get_root_node().unwrap();
    assert!(r1 == r2);
    assert_eq!(r1.get_abbrev(), r2.get_abbrev());
}

#[test]
fn frames_are_children_of_root() {
    let session = Session::new();
    let mut rec = WtapRec::new();
    let mut prec = session.new_prec(&mut rec);
    prec.dissect(decoded_tree());
    let frames = prec.get_frames().unwrap();
    assert_eq!(frames.len(), 1);
    assert_eq!(frames[0].get_abbrev(), "udp");
}

#[test]
fn priming_is_a_pure_hint() {
    let session = Session::new();
    let filter = DFilter::new("udp.port == 53".to_string()).unwrap();

    let mut rec_a = WtapRec::new();
    let mut primed = session.new_prec(&mut rec_a);
    primed.prime_dfilter(&filter);
    primed.dissect(decoded_tree());

    let mut rec_b = WtapRec::new();
    let mut plain = session.new_prec(&mut rec_b);
    plain.dissect(decoded_tree());

    // The resulting trees are identical node for node, values included.
    let ra = primed.get_root_node().unwrap();
    let rb = plain.get_root_node().unwrap();
    let mut ia = ra.iter_depth_first();
    let mut ib = rb.iter_depth_first();
    loop {
        match (ia.next(), ib.next()) {
            (Some(na), Some(nb)) => {
                assert_eq!(na.get_abbrev(), nb.get_abbrev());
                assert_eq!(na.get_depth(), nb.get_depth());
                match (na.get_fvalue(), nb.get_fvalue()) {
                    (Some(fa), Some(fb)) => assert_eq!(fa.to_string(), fb.to_string()),
                    (None, None) => {}
                    _ => panic!("field values differ"),
                }
            }
            (None, None) => break,
            _ => panic!("tree sizes differ"),
        }
    }
    // And the filter answers identically on both.
    assert_eq!(
        filter.apply_rec(&primed).unwrap(),
        filter.apply_rec(&plain).unwrap()
    );
}

#[test]
fn apply_rec_requires_dissection() {
    let session = Session::new();
    let mut rec = WtapRec::new();
    let prec = session.new_prec(&mut rec);
    let filter = DFilter::new("udp.port == 53".to_string()).unwrap();
    assert!(matches!(filter.apply_rec(&prec), Err(Error::NotDissected)));
}

#[test]
fn record_metadata_carries_over() {
    let session = Session::new();
    let mut rec = WtapRec::new();
    rec.offset = 1024;
    rec.set_file_type(9);
    let prec = session.new_prec(&mut rec);
    assert_eq!(prec.offset, 1024);
    assert_eq!(prec.file_type, 9);
}

#[test]
fn one_record_may_hold_several_frames() {
    // Tunneled or reassembled traffic: more than one logical frame.
    let mut b = TreeBuilder::new("record".to_string(), None);
    b.add_node(0, "frame".to_string(), None).unwrap();
    b.add_node(0, "frame".to_string(), None).unwrap();
    let session = Session::new();
    let mut rec = WtapRec::new();
    let mut prec = session.new_prec(&mut rec);
    prec.dissect(b.finish());
    assert_eq!(prec.get_frames().unwrap().len(), 2);
}

#[test]
fn builder_refuses_overfull_arena() {
    let mut b = TreeBuilder::new("frame".to_string(), None);
    for _ in 1..0x7fff {
        assert!(b.add_node(0, "n".to_string(), None).is_some());
    }
    // The arena is at its ceiling now; one more is refused.
    assert!(b.add_node(0, "n".to_string(), None).is_none());
    let tree = b.finish();
    assert_eq!(tree.node_count(), 0x7fff);
}

#[test]
fn eager_session_driven_dissection() {
    // The one-call pattern: the session takes the record and the decoded
    // tree and returns a result already dissected.
    let session = Session::new();
    let mut rec = WtapRec::new();
    rec.offset = 64;
    rec.set_file_type(3);
    let prec = session.dissect(&mut rec, decoded_tree());
    assert_eq!(prec.offset, 64);
    assert_eq!(prec.file_type, 3);
    let root = prec.get_root_node().unwrap();
    assert_eq!(root.get_abbrev(), "frame");
}

#[test]
fn handles_into_different_trees_compare_unequal() {
    // Identity equality: the same arena index in two trees that differ is
    // not the same node.
    let mut a = TreeBuilder::new("frame".to_string(), None);
    a.add_node(0, "eth".to_string(), None).unwrap();
    let tree_a = a.finish();
    let mut b = TreeBuilder::new("frame".to_string(), None);
    b.add_node(0, "ip".to_string(), None).unwrap();
    let tree_b = b.finish();
    let na = rust_wireshark::ProtoNode::new(&tree_a, 1, 1);
    let nb = rust_wireshark::ProtoNode::new(&tree_b, 1, 1);
    assert!(na != nb);
    // Within one tree, equality is equality of the referenced node.
    let na2 = rust_wireshark::ProtoNode::new(&tree_a, 1, 1);
    assert!(na == na2);
    assert!(na != rust_wireshark::ProtoNode::new(&tree_a, 0, 0));
}
