use rusty_buckets::layout::{hash, should_grow, should_shrink};
use rusty_buckets::{BucketState, HashTable, MAX_CAPACITY, MIN_CAPACITY};

/// A bijective mixer: distinct inputs give distinct, well-spread keys.
fn mix(i: u64) -> u64 {
    let mut z = i.wrapping_add(0x9e37_79b9_7f4a_7c15);
    z = (z ^ (z >> 30)).wrapping_mul(0xbf58_476d_1ce4_e5b9);
    z = (z ^ (z >> 27)).wrapping_mul(0x94d0_49bb_1331_11eb);
    z ^ (z >> 31)
}

#[test]
fn hash_takes_top_bits_of_product() {
    assert_eq!(hash(1, 60), 9);
    assert_eq!(hash(12345, 62), 2);
    assert_eq!(hash(0xdead_beef, 44), 3582);
    assert_eq!(hash(0, 10), 0);
}

#[test]
fn load_factor_triggers() {
    assert!(should_grow(15, 16));
    assert!(!should_grow(14, 16));
    assert!(should_grow(2, 2));
    assert!(!should_grow(1, 2));
    assert!(should_shrink(6, 16));
    assert!(!should_shrink(7, 16));
    assert!(should_shrink(0, 2));
}

#[test]
fn create_zero_gives_min_capacity() {
    let t: HashTable<u64> = HashTable::with_capacity(0);
    assert_eq!(t.capacity() as u64, MIN_CAPACITY);
    assert_eq!(t.count(), 0);
}

#[test]
fn create_rounds_above_request() {
    let t: HashTable<u64> = HashTable::with_capacity(4);
    assert_eq!(t.capacity(), 8);
    let t: HashTable<u64> = HashTable::with_capacity(5);
    assert_eq!(t.capacity(), 8);
    let t: HashTable<u64> = HashTable::with_capacity(1);
    assert_eq!(t.capacity(), 2);
    let t: HashTable<u64> = HashTable::with_capacity((1 << 21) - 1);
    assert_eq!(t.capacity(), 1 << 21);
}

#[test]
fn shape_of_fresh_and_grown_tables() {
    let mut t: HashTable<u64> = HashTable::with_capacity(3);
    for k in 0..100u64 {
        let cap = t.capacity() as u64;
        assert!(cap.is_power_of_two());
        assert!(MIN_CAPACITY <= cap && cap <= MAX_CAPACITY);
        assert_eq!(t.mask(), cap - 1);
        assert_eq!(1u64 << (64 - t.shift()), cap);
        t.insert(mix(k), k);
    }
}

#[test]
fn four_small_keys() {
    let mut t: HashTable<&'static str> = HashTable::with_capacity(4);
    assert_eq!(t.insert(1, "a"), None);
    assert_eq!(t.insert(2, "b"), None);
    assert_eq!(t.insert(3, "c"), None);
    assert_eq!(t.insert(4, "d"), None);
    assert_eq!(t.get(1), Some(&"a"));
    assert_eq!(t.get(2), Some(&"b"));
    assert_eq!(t.get(3), Some(&"c"));
    assert_eq!(t.get(4), Some(&"d"));
    assert_eq!(t.count(), 4);
    assert!(t.capacity() == 8 || t.capacity() == 16);
}

#[test]
fn insert_same_key_twice() {
    let mut t: HashTable<u64> = HashTable::with_capacity(8);
    let before = t.count();
    assert_eq!(t.insert(42, 7), None);
    assert_eq!(t.insert(42, 9), Some(7));
    assert_eq!(t.get(42), Some(&9));
    assert_eq!(t.count(), before + 1);
}

#[test]
fn insert_then_get() {
    let mut t: HashTable<u64> = HashTable::with_capacity(0);
    t.insert(u64::MAX, 5);
    assert_eq!(t.get(u64::MAX), Some(&5));
    t.insert(0, 6);
    assert_eq!(t.get(0), Some(&6));
    assert_eq!(t.get(1), None);
}

#[test]
fn delete_then_get() {
    let mut t: HashTable<u64> = HashTable::with_capacity(16);
    t.insert(10, 1);
    t.insert(11, 2);
    t.delete(10);
    assert_eq!(t.get(10), None);
    assert_eq!(t.get(11), Some(&2));
    assert_eq!(t.count(), 1);
}

#[test]
fn overwrite_keeps_count() {
    let mut t: HashTable<u64> = HashTable::with_capacity(16);
    t.insert(3, 30);
    t.insert(4, 40);
    let count = t.count();
    assert_eq!(t.insert(3, 31), Some(30));
    assert_eq!(t.count(), count);
    assert_eq!(t.get(3), Some(&31));
}

#[test]
fn count_matches_found_keys() {
    let mut t: HashTable<u64> = HashTable::with_capacity(2);
    for k in 0..200u64 {
        t.insert(mix(k % 150), k);
    }
    for k in 0..50u64 {
        t.delete(mix(k * 3));
    }
    let found = (0..150u64).filter(|k| t.get(mix(*k)).is_some()).count();
    assert_eq!(t.count(), found);
    assert_eq!(found, 150 - 50);
}

#[test]
fn delete_absent_key_changes_nothing() {
    let mut t: HashTable<u64> = HashTable::with_capacity(16);
    for k in 0..10u64 {
        t.insert(mix(k), k);
    }
    let count = t.count();
    let cap = t.capacity();
    let before: Vec<(BucketState, Option<u64>)> =
        (0..cap).map(|i| (t.bucket_state(i), t.key_at(i))).collect();
    t.delete(mix(1000));
    assert_eq!(t.count(), count);
    assert_eq!(t.capacity(), cap);
    let after: Vec<(BucketState, Option<u64>)> =
        (0..cap).map(|i| (t.bucket_state(i), t.key_at(i))).collect();
    assert_eq!(before, after);
}

#[test]
fn round_trip_across_grows_and_shrinks() {
    let mut t: HashTable<u64> = HashTable::with_capacity(0);
    let n = 5000u64;
    for k in 0..n {
        assert_eq!(t.insert(mix(k), k), None);
    }
    assert!(t.capacity() >= 8192);
    for k in 0..n {
        assert_eq!(t.get(mix(k)), Some(&k));
    }
    for k in 0..n - 100 {
        t.delete(mix(k));
    }
    assert!(t.capacity() <= 512);
    for k in n - 100..n {
        assert_eq!(t.get(mix(k)), Some(&k));
    }
    for k in 0..n - 100 {
        assert_eq!(t.get(mix(k)), None);
    }
}

#[test]
fn delete_in_reverse_order_empties() {
    let mut t: HashTable<u64> = HashTable::with_capacity(0);
    let keys: Vec<u64> = (0..3000u64).map(mix).collect();
    for (i, k) in keys.iter().enumerate() {
        t.insert(*k, i as u64);
    }
    for k in keys.iter().rev() {
        t.delete(*k);
    }
    assert_eq!(t.count(), 0);
    assert!(t.capacity() as u64 >= MIN_CAPACITY);
    for k in keys.iter() {
        assert_eq!(t.get(*k), None);
    }
}

#[test]
fn million_keys_map_to_themselves() {
    let mut t: HashTable<u64> = HashTable::with_capacity(0);
    let n = 1_000_000u64;
    for i in 0..n {
        let k = mix(i);
        t.insert(k, k);
    }
    assert_eq!(t.count(), n as usize);
    for i in 0..n {
        let k = mix(i);
        assert_eq!(t.get(k), Some(&k));
    }
    assert!((t.count() as u64) * 16 < (t.capacity() as u64) * 15);
}

#[test]
fn million_keys_deleted_in_insertion_order() {
    let mut t: HashTable<u64> = HashTable::with_capacity(0);
    let n = 1_000_000u64;
    for i in 0..n {
        t.insert(mix(i), i);
    }
    for i in 0..n {
        let before = t.count();
        t.delete(mix(i));
        assert_eq!(t.count(), before - 1);
    }
    assert_eq!(t.count(), 0);
    assert_eq!(t.capacity() as u64, MIN_CAPACITY);
}

#[test]
fn emplace_places_without_growing() {
    let mut t: HashTable<u64> = HashTable::with_capacity(1);
    assert_eq!(t.capacity(), 2);
    assert_eq!(t.emplace(7, 70), None);
    assert_eq!(t.emplace(8, 80), None);
    assert_eq!(t.capacity(), 2);
    assert_eq!(t.count(), 2);
    assert_eq!(t.emplace(7, 71), Some(70));
    assert_eq!(t.get(7), Some(&71));
    assert_eq!(t.get(8), Some(&80));
}

#[test]
fn put_is_insert() {
    let mut t: HashTable<u64> = HashTable::with_capacity(0);
    assert_eq!(t.put(5, 50), None);
    assert_eq!(t.put(5, 51), Some(50));
    assert_eq!(t.get(5), Some(&51));
    assert_eq!(t.count(), 1);
}

#[test]
fn home_follows_shift() {
    let t: HashTable<u64> = HashTable::with_capacity(15);
    assert_eq!(t.capacity(), 16);
    assert_eq!(t.shift(), 60);
    assert_eq!(t.home(1), 9);
    assert_eq!(t.home(1), hash(1, t.shift()) as usize);
}
