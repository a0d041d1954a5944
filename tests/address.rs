use grpc_helpers::address::{AccountAddress, AddressMap};

fn addr(n: u128) -> AccountAddress {
    AccountAddress::new(n, n)
}

#[test]
fn insert_get_remove() {
    let mut m: AddressMap<u64> = AddressMap::new();
    assert_eq!(m.len(), 0);
    m.insert(addr(1), 10);
    m.insert(addr(2), 20);
    m.insert(addr(1), 11);
    assert_eq!(m.len(), 2);
    assert_eq!(m.get(&addr(1)), Some(11));
    assert!(m.contains_key(&addr(2)));
    m.remove(&addr(1));
    m.remove(&addr(3));
    assert_eq!(m.len(), 1);
    assert_eq!(m.get(&addr(1)), None);
    assert_eq!(m.keys(), vec![addr(2)]);
}

#[test]
fn from_pairs_keeps_last_value() {
    let m = AddressMap::from_pairs(&[(addr(1), 1u64), (addr(2), 2), (addr(1), 3)]);
    assert_eq!(m.len(), 2);
    assert_eq!(m.get(&addr(1)), Some(3));
    assert_eq!(m.get(&addr(2)), Some(2));
}
