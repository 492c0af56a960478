use bft_crdts::bft_crdt::BFTCRDTHandler;
use bft_crdts::bft_orset::{BFTORSet, BFTORSetOp};
use bft_crdts::bft_rga::{BFTRGA, BFTRGAOp};
use bft_crdts::hash_graph::Node;
use bft_crdts::serialize::DupValue;

fn s(x: &str) -> String {
    x.to_string()
}

#[test]
fn test_bft_orset_handler() {
    let orset = BFTORSet::new();
    let mut handler = BFTCRDTHandler::new(orset);
    let add_op = handler.crdt.add(s("a"));
    handler.handle_local_op(add_op);
    assert_eq!(handler.crdt.get_set().len(), 1);
    assert_eq!(handler.crdt.is_in(s("a")), true);
    let add_op = handler.crdt.add(s("b"));
    handler.handle_local_op(add_op);
    assert_eq!(handler.crdt.get_set().len(), 2);
    assert_eq!(handler.crdt.is_in(s("b")), true);
    assert_eq!(handler.crdt.is_in(s("a")), true);
    let remove_op = handler.crdt.remove_elem(s("a"));
    handler.handle_local_op(remove_op);
    assert_eq!(handler.crdt.get_set().len(), 1);
    assert_eq!(handler.crdt.is_in(s("a")), false);
    assert_eq!(handler.crdt.is_in(s("b")), true);
}

#[test]
fn test_bft_rga_handler() {
    let rga = BFTRGA::new();
    let mut handler = BFTCRDTHandler::new(rga);
    let insert_op = handler.crdt.insert(0, s("a"), s("0")).unwrap();
    handler.handle_local_op(insert_op);
    let insert_op = handler.crdt.insert(1, s("b"), s("1")).unwrap();
    handler.handle_local_op(insert_op);
    let insert_op = handler.crdt.insert(2, s("c"), s("2")).unwrap();
    handler.handle_local_op(insert_op);
    let insert_op = handler.crdt.insert(1, s("d"), s("3")).unwrap();
    handler.handle_local_op(insert_op);
    assert_eq!(handler.crdt.get_list(), vec![s("a"), s("d"), s("b"), s("c")]);
    let delete_op = handler.crdt.delete(1).unwrap();
    handler.handle_local_op(delete_op);
    assert_eq!(handler.crdt.get_list(), vec![s("a"), s("b"), s("c")]);
}

// The add/remove cycle: an element stays present while an add unseen by the
// remove survives, and disappears once every add has been removed.
#[test]
fn orset_add_remove_cycle() {
    let mut handler = BFTCRDTHandler::new(BFTORSet::new());
    let a1 = Node { predecessors: vec![], value: BFTORSetOp::Add(s("x")) };
    let d1 = a1.get_hash();
    handler.handle_remote_node(a1);
    let a2 = Node { predecessors: vec![d1.clone()], value: BFTORSetOp::Add(s("x")) };
    let d2 = a2.get_hash();
    handler.handle_remote_node(a2);
    let r = Node {
        predecessors: vec![d2.clone()],
        value: BFTORSetOp::Remove(s("x"), vec![d1.clone()]),
    };
    let dr = r.get_hash();
    handler.handle_remote_node(r);
    assert!(handler.crdt.is_in(s("x")));
    assert_eq!(handler.crdt.get_ids(s("x")), vec![d2.clone()]);
    let r2 = Node {
        predecessors: vec![dr],
        value: BFTORSetOp::Remove(s("x"), vec![d2]),
    };
    handler.handle_remote_node(r2);
    assert!(!handler.crdt.is_in(s("x")));
    assert_eq!(handler.crdt.get_set(), Vec::<String>::new());
}

// A remove naming a fabricated digest fails the semantic predicate: it is
// buffered, never interpreted, and the element stays present.
#[test]
fn orset_forged_remove_rejected() {
    let mut handler = BFTCRDTHandler::new(BFTORSet::new());
    let a1 = Node { predecessors: vec![], value: BFTORSetOp::Add(s("x")) };
    let d1 = a1.get_hash();
    handler.handle_remote_node(a1);
    let forged: String = "0".repeat(64);
    let r = Node {
        predecessors: vec![d1],
        value: BFTORSetOp::Remove(s("x"), vec![forged]),
    };
    handler.handle_remote_node(r);
    assert!(handler.crdt.is_in(s("x")));
    assert_eq!(handler.pending_nodes.len(), 1);
}

// Out-of-order delivery: a node arriving before its predecessor is buffered
// and admitted on re-evaluation, ending in the same state as in-order
// delivery.
#[test]
fn orset_out_of_order_delivery() {
    let a1 = Node { predecessors: vec![], value: BFTORSetOp::Add(s("x")) };
    let d1 = a1.get_hash();
    let a2 = Node { predecessors: vec![d1.clone()], value: BFTORSetOp::Add(s("y")) };

    let mut in_order = BFTCRDTHandler::new(BFTORSet::new());
    in_order.handle_remote_node(Node {
        predecessors: vec![],
        value: BFTORSetOp::Add(s("x")),
    });
    in_order.handle_remote_node(Node {
        predecessors: vec![d1.clone()],
        value: BFTORSetOp::Add(s("y")),
    });

    let mut out_of_order = BFTCRDTHandler::new(BFTORSet::new());
    out_of_order.handle_remote_node(a2);
    assert_eq!(out_of_order.pending_nodes.len(), 1);
    assert!(!out_of_order.crdt.is_in(s("y")));
    out_of_order.handle_remote_node(a1);
    assert_eq!(out_of_order.pending_nodes.len(), 0);

    let mut left = in_order.crdt.get_set();
    let mut right = out_of_order.crdt.get_set();
    left.sort();
    right.sort();
    assert_eq!(left, right);
    assert_eq!(
        in_order.crdt.get_ids(s("y")),
        out_of_order.crdt.get_ids(s("y"))
    );
}

// Concurrent inserts after the same reference end in the same visible order
// whichever is admitted first; the larger user id comes earlier.
#[test]
fn rga_concurrent_inserts_commute() {
    let i0 = Node { predecessors: vec![], value: BFTRGAOp::Insert(s("a"), s("10"), None) };
    let d0 = i0.get_hash();
    let i1 = Node {
        predecessors: vec![d0.clone()],
        value: BFTRGAOp::Insert(s("b"), s("20"), Some((s("10"), d0.clone()))),
    };
    let i2 = Node {
        predecessors: vec![d0.clone()],
        value: BFTRGAOp::Insert(s("c"), s("30"), Some((s("10"), d0.clone()))),
    };

    let mut first = BFTCRDTHandler::new(BFTRGA::new());
    first.handle_remote_node(Node {
        predecessors: vec![],
        value: BFTRGAOp::Insert(s("a"), s("10"), None),
    });
    first.handle_remote_node(Node {
        predecessors: vec![d0.clone()],
        value: BFTRGAOp::Insert(s("b"), s("20"), Some((s("10"), d0.clone()))),
    });
    first.handle_remote_node(Node {
        predecessors: vec![d0.clone()],
        value: BFTRGAOp::Insert(s("c"), s("30"), Some((s("10"), d0.clone()))),
    });

    let mut second = BFTCRDTHandler::new(BFTRGA::new());
    second.handle_remote_node(i0);
    second.handle_remote_node(i2);
    second.handle_remote_node(i1);

    assert_eq!(first.crdt.get_list(), vec![s("a"), s("c"), s("b")]);
    assert_eq!(second.crdt.get_list(), vec![s("a"), s("c"), s("b")]);
}

// Inserts anchored on different references also commute.
#[test]
fn rga_inserts_with_different_references_commute() {
    let i0 = Node { predecessors: vec![], value: BFTRGAOp::Insert(s("a"), s("10"), None) };
    let d0 = i0.get_hash();
    let i1 = Node {
        predecessors: vec![d0.clone()],
        value: BFTRGAOp::Insert(s("b"), s("20"), Some((s("10"), d0.clone()))),
    };
    let d1 = i1.get_hash();

    let mk_after_a = || Node {
        predecessors: vec![d1.clone()],
        value: BFTRGAOp::Insert(s("c"), s("30"), Some((s("10"), d0.clone()))),
    };
    let mk_after_b = || Node {
        predecessors: vec![d1.clone()],
        value: BFTRGAOp::Insert(s("d"), s("40"), Some((s("20"), d1.clone()))),
    };

    let mut first = BFTCRDTHandler::new(BFTRGA::new());
    first.handle_remote_node(i0.dup());
    first.handle_remote_node(i1.dup());
    first.handle_remote_node(mk_after_a());
    first.handle_remote_node(mk_after_b());

    let mut second = BFTCRDTHandler::new(BFTRGA::new());
    second.handle_remote_node(i0);
    second.handle_remote_node(i1);
    second.handle_remote_node(mk_after_b());
    second.handle_remote_node(mk_after_a());

    assert_eq!(first.crdt.get_list(), second.crdt.get_list());
    assert_eq!(first.crdt.get_list(), vec![s("a"), s("c"), s("b"), s("d")]);
}

// A deleted element stays as a tombstone and still anchors later inserts.
#[test]
fn rga_delete_then_concurrent_insert() {
    let mut handler = BFTCRDTHandler::new(BFTRGA::new());
    let i0 = Node { predecessors: vec![], value: BFTRGAOp::Insert(s("a"), s("10"), None) };
    let d0 = i0.get_hash();
    handler.handle_remote_node(i0);
    let del = Node {
        predecessors: vec![d0.clone()],
        value: BFTRGAOp::Delete((s("10"), d0.clone())),
    };
    handler.handle_remote_node(del);
    let i3 = Node {
        predecessors: vec![d0.clone()],
        value: BFTRGAOp::Insert(s("d"), s("40"), Some((s("10"), d0.clone()))),
    };
    handler.handle_remote_node(i3);
    assert_eq!(handler.crdt.get_list(), vec![s("d")]);
}

// An insert whose reference digest was fabricated is buffered and never
// interpreted.
#[test]
fn rga_forged_reference_rejected() {
    let mut handler = BFTCRDTHandler::new(BFTRGA::new());
    let i0 = Node { predecessors: vec![], value: BFTRGAOp::Insert(s("a"), s("10"), None) };
    let d0 = i0.get_hash();
    handler.handle_remote_node(i0);
    let fabricated: String = "f".repeat(64);
    let i3 = Node {
        predecessors: vec![d0],
        value: BFTRGAOp::Insert(s("d"), s("40"), Some((s("10"), fabricated))),
    };
    handler.handle_remote_node(i3);
    assert_eq!(handler.crdt.get_list(), vec![s("a")]);
    assert_eq!(handler.pending_nodes.len(), 1);
}

// A remove that names an add of a different element is rejected.
#[test]
fn orset_remove_wrong_element_rejected() {
    let mut handler = BFTCRDTHandler::new(BFTORSet::new());
    let a1 = Node { predecessors: vec![], value: BFTORSetOp::Add(s("x")) };
    let d1 = a1.get_hash();
    handler.handle_remote_node(a1);
    let r = Node {
        predecessors: vec![d1.clone()],
        value: BFTORSetOp::Remove(s("y"), vec![d1]),
    };
    handler.handle_remote_node(r);
    assert!(handler.crdt.is_in(s("x")));
    assert_eq!(handler.pending_nodes.len(), 1);
}

// Submitting the very same node twice leaves graph and state unchanged.
#[test]
fn duplicate_submission_is_noop() {
    let mut handler = BFTCRDTHandler::new(BFTORSet::new());
    let mk = || Node { predecessors: vec![], value: BFTORSetOp::Add(s("x")) };
    let d = mk().get_hash();
    handler.handle_remote_node(mk());
    let ids_before = handler.crdt.get_ids(s("x"));
    assert!(handler.hash_graph.contains(&d));
    handler.handle_remote_node(mk());
    assert!(handler.hash_graph.contains(&d));
    assert_eq!(handler.crdt.get_ids(s("x")), ids_before);
    assert_eq!(handler.hash_graph.node_count(), 1);
}

// A remove of an element the set never saw changes nothing: in particular
// it creates no entry in the element map.
#[test]
fn remove_absent_creates_no_entry() {
    let mut handler = BFTCRDTHandler::new(BFTORSet::new());
    let a1 = Node { predecessors: vec![], value: BFTORSetOp::Add(s("y")) };
    let d1 = a1.get_hash();
    handler.handle_remote_node(a1);
    let r = Node {
        predecessors: vec![d1.clone()],
        value: BFTORSetOp::Remove(s("x"), vec![]),
    };
    let dr = r.get_hash();
    handler.handle_remote_node(r);
    assert!(handler.hash_graph.contains(&dr));
    assert_eq!(handler.pending_nodes.len(), 0);
    let map = handler.crdt.get_map();
    assert_eq!(map.len(), 1);
    assert_eq!(map[0].0, s("y"));
    assert!(!handler.crdt.is_in(s("x")));
}
