use bft_crdts::bft_crdt::BFTCRDTTester;
use bft_crdts::bft_orset::{BFTORSet, BFTORSetOp};
use bft_crdts::hash_graph::{HashGraph, Node};
use bft_crdts::serialize::Serialize;
use sha2::{Digest, Sha256};

fn s(x: &str) -> String {
    x.to_string()
}

#[test]
fn test_add_node() {
    let mut graph: HashGraph<Vec<u8>> = HashGraph::new();
    let hash = graph.add_value_with_head_preds(b"test".to_vec());
    let mut hasher = Sha256::new();
    hasher.update(b"test");
    let expected_hash = hex::encode(hasher.finalize().to_vec());
    assert_eq!(hash.unwrap(), expected_hash);
    assert_eq!(graph.nodes.len(), 1);
    assert_eq!(graph.get_node(&expected_hash).unwrap().value, b"test");
}

#[test]
fn test_add_multiple_nodes() {
    let mut graph: HashGraph<Vec<u8>> = HashGraph::new();
    let hash1 = graph.add_value_with_head_preds(b"test1".to_vec());
    let hash2 = graph.add_value_with_head_preds(b"test2".to_vec());
    let mut hasher = Sha256::new();
    hasher.update(b"test1");
    let expected_hash1 = hex::encode(hasher.finalize().to_vec());
    hasher = Sha256::new();
    hasher.update(expected_hash1.clone());
    hasher.update(b"test2");
    let expected_hash2 = hex::encode(hasher.finalize().to_vec());

    assert_eq!(hash1.unwrap(), expected_hash1);
    assert_eq!(hash2.unwrap(), expected_hash2);
    assert_eq!(graph.nodes.len(), 2);
    assert_eq!(graph.get_node(&expected_hash1).unwrap().value, b"test1");
    assert_eq!(graph.get_node(&expected_hash2).unwrap().value, b"test2");
    assert_eq!(
        graph.get_node(&expected_hash2).unwrap().predecessors,
        vec![expected_hash1]
    );
}

// Digest stability: permuting the predecessor list does not change the
// node's digest, and the digest matches the hash of the sorted
// concatenation computed by hand.
#[test]
fn digest_ignores_predecessor_order() {
    let mut graph: HashGraph<Vec<u8>> = HashGraph::new();
    let d1 = graph.add_value_with_head_preds(b"one".to_vec()).unwrap();
    let mut graph2: HashGraph<Vec<u8>> = HashGraph::new();
    let d2 = graph2.add_value_with_head_preds(b"two".to_vec()).unwrap();

    let n_fwd = Node { predecessors: vec![d1.clone(), d2.clone()], value: b"payload".to_vec() };
    let n_rev = Node { predecessors: vec![d2.clone(), d1.clone()], value: b"payload".to_vec() };
    assert_eq!(n_fwd.get_hash(), n_rev.get_hash());

    let mut sorted = vec![d1, d2];
    sorted.sort();
    let mut hasher = Sha256::new();
    for p in &sorted {
        hasher.update(p.as_bytes());
    }
    hasher.update(b"payload");
    let expected = hex::encode(hasher.finalize().to_vec());
    assert_eq!(n_fwd.get_hash(), expected);
}

// Ancestor soundness on a small diamond: everything admitted reaches its
// ancestors and nothing else.
#[test]
fn is_ancestor_on_diamond() {
    let mut graph: HashGraph<Vec<u8>> = HashGraph::new();
    let root = Node { predecessors: vec![], value: b"r".to_vec() };
    let dr = root.get_hash();
    graph.add_node(root);
    let left = Node { predecessors: vec![dr.clone()], value: b"l".to_vec() };
    let dl = left.get_hash();
    graph.add_node(left);
    let right = Node { predecessors: vec![dr.clone()], value: b"q".to_vec() };
    let dq = right.get_hash();
    graph.add_node(right);
    let top = Node { predecessors: vec![dl.clone(), dq.clone()], value: b"t".to_vec() };
    let dt = top.get_hash();
    graph.add_node(top);

    let top_ref = graph.get_node(&dt).unwrap();
    assert!(graph.is_ancestor(&dt, top_ref));
    assert!(graph.is_ancestor(&dl, top_ref));
    assert!(graph.is_ancestor(&dq, top_ref));
    assert!(graph.is_ancestor(&dr, top_ref));
    let left_ref = graph.get_node(&dl).unwrap();
    assert!(graph.is_ancestor(&dr, left_ref));
    assert!(!graph.is_ancestor(&dq, left_ref));
    assert!(!graph.is_ancestor(&dt, left_ref));
}

// Heads track the frontier: admitting a successor removes its predecessors
// from the heads.
#[test]
fn heads_follow_frontier() {
    let mut graph: HashGraph<Vec<u8>> = HashGraph::new();
    let a = Node { predecessors: vec![], value: b"a".to_vec() };
    let da = a.get_hash();
    graph.add_node(a);
    let b = Node { predecessors: vec![], value: b"b".to_vec() };
    let db = b.get_hash();
    graph.add_node(b);
    let mut heads = graph.heads();
    heads.sort();
    let mut expected = vec![da.clone(), db.clone()];
    expected.sort();
    assert_eq!(heads, expected);

    let c = Node { predecessors: vec![da.clone(), db.clone()], value: b"c".to_vec() };
    let dc = c.get_hash();
    graph.add_node(c);
    assert_eq!(graph.heads(), vec![dc]);
}

// Admission monotonicity: once a digest is stored, it stays stored through
// later admissions.
#[test]
fn contains_is_monotone() {
    let mut graph: HashGraph<Vec<u8>> = HashGraph::new();
    let d1 = graph.add_value_with_head_preds(b"first".to_vec()).unwrap();
    assert!(graph.contains(&d1));
    let d2 = graph.add_value_with_head_preds(b"second".to_vec()).unwrap();
    assert!(graph.contains(&d1));
    assert!(graph.contains(&d2));
    let node = Node { predecessors: vec![d2.clone()], value: b"third".to_vec() };
    graph.add_node(node);
    assert!(graph.contains(&d1));
    assert!(graph.contains(&d2));
}

// The tester admits only valid nodes and ignores the rest outright.
#[test]
fn tester_ignores_invalid_nodes() {
    let mut tester = BFTCRDTTester::new(BFTORSet::new());
    let a1 = Node { predecessors: vec![], value: BFTORSetOp::Add(s("x")) };
    let d1 = a1.get_hash();
    tester.handle_node(a1);
    assert!(tester.crdt.is_in(s("x")));
    let dangling = Node {
        predecessors: vec!["9".repeat(64)],
        value: BFTORSetOp::Add(s("y")),
    };
    tester.handle_node(dangling);
    assert!(!tester.crdt.is_in(s("y")));
    let forged = Node {
        predecessors: vec![d1],
        value: BFTORSetOp::Remove(s("x"), vec!["0".repeat(64)]),
    };
    tester.handle_node(forged);
    assert!(tester.crdt.is_in(s("x")));
}

// The canonical encodings, bit for bit.
#[test]
fn canonical_encodings() {
    assert_eq!(s("abc").to_bytes(), vec![0x61u8, 0x62, 0x63]);
    assert_eq!(258u64.to_bytes(), vec![2u8, 1, 0, 0, 0, 0, 0, 0]);
    assert_eq!(258u32.to_bytes(), vec![2u8, 1, 0, 0]);
    assert_eq!(258u16.to_bytes(), vec![2u8, 1]);
    assert_eq!(7u8.to_bytes(), vec![7u8]);
    assert_eq!(true.to_bytes(), vec![1u8]);
    assert_eq!(false.to_bytes(), vec![0u8]);
    assert_eq!('A'.to_bytes(), vec![0x41u8]);
    assert_eq!('\u{0141}'.to_bytes(), vec![0x41u8]);
    assert_eq!(vec![9u8, 8].to_bytes(), vec![9u8, 8]);
}

// A remove encodes as its ids sorted and concatenated, then the element.
#[test]
fn remove_encoding_sorts_ids() {
    let op1 = BFTORSetOp::Remove(s("e"), vec![s("bb"), s("aa")]);
    let op2 = BFTORSetOp::Remove(s("e"), vec![s("aa"), s("bb")]);
    assert_eq!(op1.to_bytes(), op2.to_bytes());
    assert_eq!(op1.to_bytes(), b"aabbe".to_vec());
}
