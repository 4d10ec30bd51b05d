use chain_vote::table::CoordinateMap;

fn key(seed: u8) -> [u8; 32] {
    let mut k = [seed; 32];
    k[31] = seed.wrapping_mul(31);
    k
}

#[test]
fn empty_map_holds_nothing() {
    let m = CoordinateMap::new(4);
    assert_eq!(m.get(&None), None);
    assert_eq!(m.get(&Some(key(1))), None);
    let single = CoordinateMap::new(0);
    assert_eq!(single.get(&Some(key(1))), None);
}

#[test]
fn map_returns_what_was_put() {
    let mut m = CoordinateMap::new(8);
    for i in 0u8..100 {
        m.insert(Some(key(i)), i as u64 * 3);
    }
    m.insert(None, 7);
    for i in 0u8..100 {
        assert_eq!(m.get(&Some(key(i))), Some(i as u64 * 3));
    }
    assert_eq!(m.get(&None), Some(7));
    assert_eq!(m.get(&Some(key(100))), None);
}

#[test]
fn map_replaces_the_value_of_a_key() {
    let mut m = CoordinateMap::new(1);
    m.insert(Some(key(5)), 1);
    m.insert(Some(key(6)), 2);
    m.insert(Some(key(5)), 3);
    m.insert(None, 4);
    m.insert(None, 5);
    assert_eq!(m.get(&Some(key(5))), Some(3));
    assert_eq!(m.get(&Some(key(6))), Some(2));
    assert_eq!(m.get(&None), Some(5));
}

#[test]
fn keys_with_the_same_prefix_are_told_apart() {
    let mut m = CoordinateMap::new(16);
    let mut a = [9u8; 32];
    let mut b = [9u8; 32];
    a[31] = 1;
    b[31] = 2;
    m.insert(Some(a), 10);
    m.insert(Some(b), 20);
    assert_eq!(m.get(&Some(a)), Some(10));
    assert_eq!(m.get(&Some(b)), Some(20));
    assert_eq!(m.get(&Some([9u8; 32])), None);
}
