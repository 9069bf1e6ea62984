use scalable_cuckoo_filter::exceptional_items::ExceptionalItems;

#[test]
fn side_list_stays_sorted() {
    let mut list = ExceptionalItems::new();
    assert_eq!(list.len(), 0);
    list.insert(5, 9, 7);
    list.insert(3, 1, 0);
    list.insert(8, 2, 7);
    list.insert(4, 4, 3);
    list.insert(9, 5, 7);
    assert_eq!(list.len(), 5);
    assert_eq!(list.to_vec(), vec![(0, 1), (3, 4), (7, 2), (7, 5), (7, 5)]);
}

#[test]
fn side_list_knows_an_entry_from_either_bucket() {
    let mut list = ExceptionalItems::new();
    list.insert(5, 9, 7);
    assert!(list.contains(5, 9, 7));
    assert!(list.contains(9, 5, 7));
    assert!(list.contains(5, 5, 7));
    assert!(list.contains(5, 100, 7));
    assert!(!list.contains(9, 9, 7));
    assert!(!list.contains(5, 9, 8));
    assert!(!list.contains(4, 9, 7));
}

#[test]
fn side_list_removes_one_entry_at_a_time() {
    let mut list = ExceptionalItems::new();
    list.insert(5, 9, 7);
    list.insert(9, 5, 7);
    list.insert(1, 2, 3);
    assert!(!list.remove(5, 9, 8));
    assert_eq!(list.len(), 3);
    assert!(list.remove(9, 5, 7));
    assert!(list.contains(5, 9, 7));
    assert_eq!(list.to_vec(), vec![(3, 1), (7, 5)]);
    assert!(list.remove(5, 9, 7));
    assert!(!list.contains(5, 9, 7));
    assert!(!list.remove(5, 9, 7));
    assert_eq!(list.to_vec(), vec![(3, 1)]);
}

#[test]
fn only_other_fingerprints_than_zero_were_kicked_out() {
    let mut list = ExceptionalItems::new();
    assert!(!list.contains_kicked_out_entries());
    list.insert(1, 2, 0);
    list.insert(7, 3, 0);
    assert!(!list.contains_kicked_out_entries());
    list.insert(0, 0, 1);
    assert!(list.contains_kicked_out_entries());
    list.insert(9, 9, 0);
    assert!(list.contains_kicked_out_entries());
    assert!(list.remove(0, 0, 1));
    assert!(!list.contains_kicked_out_entries());
}

#[test]
fn side_list_counts_the_room_that_it_has() {
    let entry = std::mem::size_of::<(u64, usize)>() as u64;
    assert_eq!(ExceptionalItems::bits_for_capacity(0), 0);
    assert_eq!(ExceptionalItems::bits_for_capacity(1), entry * 8);
    assert_eq!(ExceptionalItems::bits_for_capacity(4), entry * 32);
    assert_eq!(ExceptionalItems::bits_for_capacity(usize::MAX), u64::MAX);
    let mut list = ExceptionalItems::new();
    assert_eq!(list.bits(), 0);
    list.insert(1, 2, 3);
    assert!(list.bits() >= entry * 8);
    assert!(list.remove(1, 2, 3));
    list.shrink_to_fit();
    assert_eq!(list.bits(), 0);
    assert_eq!(list.len(), 0);
}

#[test]
fn side_list_is_read_back_only_if_sorted() {
    let list = ExceptionalItems::from_vec(vec![(0, 4), (0, 4), (0, 9), (2, 1), (3, 0)]);
    assert_eq!(
        list.map(|list| list.to_vec()),
        Some(vec![(0, 4), (0, 4), (0, 9), (2, 1), (3, 0)])
    );
    assert!(ExceptionalItems::from_vec(vec![]).is_some());
    assert!(ExceptionalItems::from_vec(vec![(1, 1)]).is_some());
    assert!(ExceptionalItems::from_vec(vec![(1, 1), (0, 5)]).is_none());
    assert!(ExceptionalItems::from_vec(vec![(1, 5), (1, 4)]).is_none());
    assert!(ExceptionalItems::from_vec(vec![(0, 0), (1, 5), (2, 4), (2, 3)]).is_none());
}
