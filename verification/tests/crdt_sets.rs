use bft_crdts::orset::ORSet;
use bft_crdts::rga::RGA;

fn s(x: &str) -> String {
    x.to_string()
}

#[test]
fn test_orset() {
    let mut orset = ORSet::new();
    let add_op = orset.add(s("a"), s("1"));
    orset.interpret_op(&add_op);
    let add_op = orset.add(s("a"), s("2"));
    orset.interpret_op(&add_op);
    let remove_op = orset.remove(s("a"), vec![s("1")]);
    orset.interpret_op(&remove_op);
    assert!(orset.is_in(s("a")));
    assert!(!orset.is_in(s("b")));
    assert_eq!(orset.get_ids(s("a")), vec![s("2")]);
    assert_eq!(orset.get_ids(s("b")), Vec::<String>::new());
}

#[test]
fn test_remove_not_in() {
    let mut orset = ORSet::new();
    let remove_op = orset.remove(s("a"), vec![s("1")]);
    orset.interpret_op(&remove_op);
    assert!(!orset.is_in(s("a")));

    let add_op = orset.add(s("a"), s("1"));
    orset.interpret_op(&add_op);
    assert!(orset.is_in(s("a")));
}

#[test]
fn rga_test_insert() {
    let mut rga = RGA::new();
    let insert_op = rga.insert(0, s("a"), 0).unwrap();
    rga.interpret_op(&insert_op);
    let insert_op = rga.insert(1, s("b"), 1).unwrap();
    rga.interpret_op(&insert_op);
    let insert_op = rga.insert(2, s("c"), 2).unwrap();
    rga.interpret_op(&insert_op);
    let insert_op = rga.insert(1, s("d"), 3).unwrap();
    rga.interpret_op(&insert_op);
    assert_eq!(rga.get_list(), vec![s("a"), s("d"), s("b"), s("c")]);
}

#[test]
fn rga_test_delete() {
    let mut rga = RGA::new();
    let insert_op = rga.insert(0, s("a"), 0).unwrap();
    rga.interpret_op(&insert_op);
    let insert_op = rga.insert(1, s("b"), 1).unwrap();
    rga.interpret_op(&insert_op);
    let insert_op = rga.insert(2, s("c"), 2).unwrap();
    rga.interpret_op(&insert_op);
    let delete_op = rga.delete(1).unwrap();
    rga.interpret_op(&delete_op);
    assert_eq!(rga.get_list(), vec![s("a"), s("c")]);
}

#[test]
fn test_insert_invalid() {
    let mut rga = RGA::new();
    let insert_op = rga.insert(1, s("a"), 0);
    assert!(insert_op.is_none());
}

#[test]
fn rga_get_returns_visible_value() {
    let mut rga = RGA::new();
    let op = rga.insert(0, s("x"), 7).unwrap();
    rga.interpret_op(&op);
    assert_eq!(rga.get(0), Some(s("x")));
    assert_eq!(rga.get(1), None);
}

#[test]
fn rga_delete_out_of_range_is_none() {
    let mut rga = RGA::new();
    assert!(rga.delete(0).is_none());
}

#[test]
fn orset_remove_only_named_ids() {
    let mut orset = ORSet::new();
    let a1 = orset.add(s("x"), s("i1"));
    orset.interpret_op(&a1);
    let a2 = orset.add(s("x"), s("i2"));
    orset.interpret_op(&a2);
    let a3 = orset.add(s("x"), s("i3"));
    orset.interpret_op(&a3);
    let r = orset.remove(s("x"), vec![s("i1"), s("i3")]);
    orset.interpret_op(&r);
    assert_eq!(orset.get_ids(s("x")), vec![s("i2")]);
}
