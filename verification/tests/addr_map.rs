use spark::addr_map::AddrMap;
use spark::types::H160;

fn addr(byte: u8) -> H160 {
    H160([byte; 20])
}

#[test]
fn addr_map_starts_empty() {
    let m: AddrMap<u128> = AddrMap::new();
    assert_eq!(m.len(), 0);
    assert!(m.is_empty());
    assert_eq!(m.get(&addr(1)), None);
    assert!(!m.contains_key(&addr(1)));
}

#[test]
fn addr_map_insert_and_get() {
    let mut m: AddrMap<u128> = AddrMap::new();
    assert_eq!(m.insert(addr(5), 50), None);
    assert_eq!(m.insert(addr(3), 30), None);
    assert_eq!(m.insert(addr(9), 90), None);
    assert_eq!(m.len(), 3);
    assert!(!m.is_empty());
    assert_eq!(m.get(&addr(3)), Some(&30));
    assert_eq!(m.get(&addr(5)), Some(&50));
    assert_eq!(m.get(&addr(9)), Some(&90));
    assert_eq!(m.get(&addr(4)), None);
    assert!(m.contains_key(&addr(9)));
}

#[test]
fn addr_map_insert_hands_back_the_old_value() {
    let mut m: AddrMap<u128> = AddrMap::new();
    m.insert(addr(5), 50);
    assert_eq!(m.insert(addr(5), 51), Some(50));
    assert_eq!(m.len(), 1);
    assert_eq!(m.get(&addr(5)), Some(&51));
}

#[test]
fn addr_map_hands_entries_out_in_the_order_of_the_keys() {
    let mut m: AddrMap<u128> = AddrMap::new();
    for b in [200u8, 3, 77, 1, 150] {
        m.insert(addr(b), b as u128);
    }
    let keys: Vec<H160> = (0..m.len()).map(|i| m.key_at(i)).collect();
    assert_eq!(keys, vec![addr(1), addr(3), addr(77), addr(150), addr(200)]);
    let values: Vec<u128> = (0..m.len()).map(|i| *m.value_at(i)).collect();
    assert_eq!(values, vec![1, 3, 77, 150, 200]);
}

#[test]
fn addr_map_remove() {
    let mut m: AddrMap<u128> = AddrMap::new();
    m.insert(addr(1), 10);
    m.insert(addr(2), 20);
    m.insert(addr(3), 30);
    assert_eq!(m.remove(&addr(2)), Some(20));
    assert_eq!(m.remove(&addr(2)), None);
    assert_eq!(m.remove(&addr(7)), None);
    assert_eq!(m.len(), 2);
    assert_eq!(m.key_at(0), addr(1));
    assert_eq!(m.key_at(1), addr(3));
    assert_eq!(m.get(&addr(2)), None);
}

#[test]
fn addr_map_duplicate_is_a_copy() {
    let mut m: AddrMap<u128> = AddrMap::new();
    m.insert(addr(1), 10);
    m.insert(addr(2), 20);
    let mut copy = m.duplicate();
    copy.insert(addr(1), 11);
    copy.remove(&addr(2));
    assert_eq!(m.get(&addr(1)), Some(&10));
    assert_eq!(m.get(&addr(2)), Some(&20));
    assert_eq!(copy.get(&addr(1)), Some(&11));
    assert_eq!(copy.len(), 1);
}
