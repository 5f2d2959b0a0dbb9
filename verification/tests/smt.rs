use spark::addr_map::AddrMap;
use spark::smt::{update_leaves, SmtError, SmtLeaves};
use spark::tx_types::UserAmount;
use spark::types::H160;

fn addr(byte: u8) -> H160 {
    H160([byte; 20])
}

fn inc(user: u8, amount: u128) -> UserAmount {
    UserAmount { user: addr(user), amount, is_increase: true }
}

fn dec(user: u8, amount: u128) -> UserAmount {
    UserAmount { user: addr(user), amount, is_increase: false }
}

fn entries_of(map: &AddrMap<u128>) -> Vec<(H160, u128)> {
    (0..map.len()).map(|i| (map.key_at(i), *map.value_at(i))).collect()
}

#[test]
fn update_leaves_adds_and_takes() {
    let mut leaves = AddrMap::new();
    assert_eq!(update_leaves(&mut leaves, &vec![inc(2, 50), inc(1, 10), dec(2, 20), inc(1, 5)]), Ok(()));
    assert_eq!(entries_of(&leaves), vec![(addr(1), 15), (addr(2), 30)]);
}

#[test]
fn update_leaves_keeps_a_leaf_that_falls_to_zero() {
    let mut leaves = AddrMap::new();
    assert_eq!(update_leaves(&mut leaves, &vec![inc(1, 10), dec(1, 10), dec(3, 0)]), Ok(()));
    assert_eq!(entries_of(&leaves), vec![(addr(1), 0), (addr(3), 0)]);
}

#[test]
fn update_leaves_refuses_an_underflow_and_changes_nothing() {
    let mut leaves = AddrMap::new();
    leaves.insert(addr(1), 10);
    assert_eq!(
        update_leaves(&mut leaves, &vec![inc(2, 5), dec(1, 11), inc(3, 1)]),
        Err(SmtError::Underflow(addr(1)))
    );
    assert_eq!(entries_of(&leaves), vec![(addr(1), 10)]);
    assert_eq!(update_leaves(&mut leaves, &vec![dec(9, 1)]), Err(SmtError::Underflow(addr(9))));
}

#[test]
fn update_leaves_refuses_an_overflow_and_changes_nothing() {
    let mut leaves = AddrMap::new();
    leaves.insert(addr(1), u128::MAX);
    assert_eq!(update_leaves(&mut leaves, &vec![inc(1, 1)]), Err(SmtError::Overflow(addr(1))));
    assert_eq!(update_leaves(&mut leaves, &vec![inc(1, 0)]), Ok(()));
    assert_eq!(entries_of(&leaves), vec![(addr(1), u128::MAX)]);
}

#[test]
fn a_tree_starts_without_epochs() {
    let tree = SmtLeaves::new();
    assert_eq!(tree.get_amount(0, &addr(1)), None);
    assert!(tree.get_sub_leaves(0).is_empty());
}

#[test]
fn insert_begins_the_epoch() {
    let mut tree = SmtLeaves::new();
    assert_eq!(tree.insert(10, &vec![inc(1, 500)]), Ok(()));
    assert_eq!(tree.get_amount(10, &addr(1)), Some(500));
    assert_eq!(tree.get_amount(10, &addr(2)), None);
    assert_eq!(tree.get_amount(11, &addr(1)), None);
    assert_eq!(entries_of(&tree.get_sub_leaves(10)), vec![(addr(1), 500)]);
}

#[test]
fn insert_adds_to_and_takes_from_leaves() {
    let mut tree = SmtLeaves::new();
    tree.insert(10, &vec![inc(1, 500), inc(2, 7)]).unwrap();
    tree.insert(10, &vec![dec(1, 200), inc(2, 3)]).unwrap();
    assert_eq!(entries_of(&tree.get_sub_leaves(10)), vec![(addr(1), 300), (addr(2), 10)]);
}

#[test]
fn insert_refuses_an_underflow_and_changes_nothing() {
    let mut tree = SmtLeaves::new();
    tree.insert(10, &vec![inc(1, 500)]).unwrap();
    assert_eq!(tree.insert(10, &vec![inc(2, 1), dec(1, 501)]), Err(SmtError::Underflow(addr(1))));
    assert_eq!(entries_of(&tree.get_sub_leaves(10)), vec![(addr(1), 500)]);
    assert_eq!(tree.insert(11, &vec![dec(1, 1)]), Err(SmtError::Underflow(addr(1))));
    assert!(tree.get_sub_leaves(11).is_empty());
}

#[test]
fn new_epoch_carries_the_leaves_over() {
    let mut tree = SmtLeaves::new();
    tree.insert(14, &vec![inc(1, 500), inc(2, 7)]).unwrap();
    tree.new_epoch(15);
    assert_eq!(entries_of(&tree.get_sub_leaves(15)), vec![(addr(1), 500), (addr(2), 7)]);
    // The epochs are apart from then on.
    tree.insert(15, &vec![inc(1, 1)]).unwrap();
    assert_eq!(tree.get_amount(14, &addr(1)), Some(500));
    assert_eq!(tree.get_amount(15, &addr(1)), Some(501));
}

#[test]
fn new_epoch_twice_is_new_epoch_once() {
    let mut tree = SmtLeaves::new();
    tree.insert(14, &vec![inc(1, 500)]).unwrap();
    tree.new_epoch(15);
    tree.insert(15, &vec![inc(1, 1)]).unwrap();
    tree.insert(14, &vec![inc(1, 40)]).unwrap();
    tree.new_epoch(15);
    assert_eq!(tree.get_amount(15, &addr(1)), Some(501));
}

#[test]
fn new_epoch_without_an_earlier_epoch_begins_empty() {
    let mut tree = SmtLeaves::new();
    tree.insert(3, &vec![inc(1, 500)]).unwrap();
    tree.new_epoch(5);
    assert!(tree.get_sub_leaves(5).is_empty());
    tree.new_epoch(0);
    assert!(tree.get_sub_leaves(0).is_empty());
    tree.new_epoch(4);
    assert_eq!(entries_of(&tree.get_sub_leaves(4)), vec![(addr(1), 500)]);
}

#[test]
fn delegate_leaves_are_kept_by_staker() {
    let mut tree = spark::smt::DelegateSmtLeaves::new();
    assert_eq!(tree.get_amount(10, &addr(1), &addr(7)), None);
    tree.insert(10, addr(1), &vec![inc(7, 100), inc(8, 5)]).unwrap();
    tree.insert(10, addr(2), &vec![inc(7, 30)]).unwrap();
    tree.insert(10, addr(1), &vec![dec(7, 40)]).unwrap();
    assert_eq!(tree.get_amount(10, &addr(1), &addr(7)), Some(60));
    assert_eq!(tree.get_amount(10, &addr(1), &addr(8)), Some(5));
    assert_eq!(tree.get_amount(10, &addr(2), &addr(7)), Some(30));
    assert_eq!(tree.get_amount(10, &addr(2), &addr(8)), None);
    assert_eq!(tree.get_amount(11, &addr(1), &addr(7)), None);
    assert_eq!(tree.get_amount(10, &addr(3), &addr(7)), None);
}

#[test]
fn delegate_insert_refuses_an_underflow_and_changes_nothing() {
    let mut tree = spark::smt::DelegateSmtLeaves::new();
    tree.insert(10, addr(1), &vec![inc(7, 100)]).unwrap();
    assert_eq!(
        tree.insert(10, addr(1), &vec![inc(8, 1), dec(7, 101)]),
        Err(SmtError::Underflow(addr(7)))
    );
    assert_eq!(tree.get_amount(10, &addr(1), &addr(7)), Some(100));
    assert_eq!(tree.get_amount(10, &addr(1), &addr(8)), None);
    assert_eq!(tree.insert(10, addr(2), &vec![dec(7, 1)]), Err(SmtError::Underflow(addr(7))));
    assert_eq!(
        tree.insert(10, addr(1), &vec![inc(7, u128::MAX)]),
        Err(SmtError::Overflow(addr(7)))
    );
}

#[test]
fn delegate_new_epoch_carries_the_leaves_of_every_staker_over() {
    let mut tree = spark::smt::DelegateSmtLeaves::new();
    tree.insert(14, addr(1), &vec![inc(7, 100)]).unwrap();
    tree.insert(14, addr(2), &vec![inc(8, 9)]).unwrap();
    tree.insert(13, addr(3), &vec![inc(9, 1)]).unwrap();
    tree.new_epoch(15);
    assert_eq!(tree.get_amount(15, &addr(1), &addr(7)), Some(100));
    assert_eq!(tree.get_amount(15, &addr(2), &addr(8)), Some(9));
    assert_eq!(tree.get_amount(15, &addr(3), &addr(9)), None);
    tree.insert(15, addr(1), &vec![inc(7, 1)]).unwrap();
    tree.new_epoch(15);
    assert_eq!(tree.get_amount(15, &addr(1), &addr(7)), Some(101));
    assert_eq!(tree.get_amount(14, &addr(1), &addr(7)), Some(100));
}
