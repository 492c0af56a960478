use bft_crdts::ordered_list::OrderedList;

fn s(x: &str) -> String {
    x.to_string()
}

#[test]
fn test_insert() {
    let mut list: OrderedList<u64, String> = OrderedList::new();
    list.insert_by_id(1, s("a"), None);
    list.insert_by_id(2, s("b"), Some(1));
    list.insert_by_id(3, s("c"), Some(2));

    assert_eq!(list.get_list(), vec![s("a"), s("b"), s("c")]);
}

#[test]
fn test_delete() {
    let mut list: OrderedList<u64, String> = OrderedList::new();
    list.insert_by_id(1, s("a"), None);
    list.insert_by_id(2, s("b"), Some(1));
    list.insert_by_id(3, s("c"), Some(2));
    list.delete_by_id(2);
    assert_eq!(list.get_list(), vec![s("a"), s("c")]);
}

#[test]
fn test_insert_at_the_same_position() {
    let mut list: OrderedList<u64, String> = OrderedList::new();
    list.insert_by_id(1, s("a"), None);
    list.insert_by_id(2, s("b"), Some(1));
    list.insert_by_id(3, s("c"), Some(1));
    assert_eq!(list.get_list(), vec![s("a"), s("c"), s("b")]);
}

#[test]
fn concurrent_insert_commute() {
    let mut list: OrderedList<u64, String> = OrderedList::new();
    list.insert_by_id(1, s("a"), None);
    list.insert_by_id(2, s("b"), Some(1));
    list.insert_by_id(3, s("c"), Some(1));

    let mut list2: OrderedList<u64, String> = OrderedList::new();
    list2.insert_by_id(1, s("a"), None);
    list2.insert_by_id(3, s("c"), Some(1));
    list2.insert_by_id(2, s("b"), Some(1));

    assert_eq!(list.get_list(), list2.get_list());
}

#[test]
fn concurrent_delete_commute() {
    let mut list: OrderedList<u64, String> = OrderedList::new();
    list.insert_by_id(1, s("a"), None);
    list.insert_by_id(2, s("b"), Some(1));

    let mut list2 = list.clone();

    list.delete_by_id(1);
    list.delete_by_id(2);
    list2.delete_by_id(2);
    list2.delete_by_id(1);

    assert_eq!(list.get_list(), list2.get_list());
}

#[test]
fn concurrent_insert_delete_commute() {
    let mut list: OrderedList<u64, String> = OrderedList::new();
    list.insert_by_id(1, s("a"), None);
    list.insert_by_id(2, s("b"), Some(1));
    list.insert_by_id(3, s("c"), Some(2));

    let mut list2 = list.clone();

    list.insert_by_id(2, s("d"), Some(1));
    list.delete_by_id(1);

    list2.delete_by_id(1);
    list2.insert_by_id(2, s("d"), Some(1));

    assert_eq!(list.get_list(), list2.get_list());
}

#[test]
fn ordered_list_get_by_idx_skips_tombstones() {
    let mut list: OrderedList<u64, String> = OrderedList::new();
    list.insert_by_id(1, s("a"), None);
    list.insert_by_id(2, s("b"), Some(1));
    list.insert_by_id(3, s("c"), Some(2));
    list.delete_by_id(2);
    let e = list.get_by_idx(1).unwrap();
    assert_eq!(e.0, 3);
    assert_eq!(e.1, s("c"));
    assert!(!e.2);
    assert!(list.get_by_idx(2).is_none());
}

#[test]
fn ordered_list_delete_by_idx_marks_visible_element() {
    let mut list: OrderedList<u64, String> = OrderedList::new();
    list.insert_by_id(1, s("a"), None);
    list.insert_by_id(2, s("b"), Some(1));
    list.insert_by_id(3, s("c"), Some(2));
    assert!(list.delete_by_idx(1).is_some());
    assert_eq!(list.get_list(), vec![s("a"), s("c")]);
    assert!(list.delete_by_idx(2).is_none());
}

#[test]
fn ordered_list_insert_missing_reference_is_noop() {
    let mut list: OrderedList<u64, String> = OrderedList::new();
    list.insert_by_id(1, s("a"), None);
    assert!(list.insert_by_id(2, s("b"), Some(9)).is_none());
    assert_eq!(list.get_list(), vec![s("a")]);
}

#[test]
fn ordered_list_get_by_id_finds_tombstones() {
    let mut list: OrderedList<u64, String> = OrderedList::new();
    list.insert_by_id(1, s("a"), None);
    list.delete_by_id(1);
    let e = list.get_by_id(1).unwrap();
    assert_eq!(e.1, s("a"));
    assert!(e.2);
}
