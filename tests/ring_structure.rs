use rusty_buckets::{BucketState, HashTable};

fn mix(i: u64) -> u64 {
    let mut z = i.wrapping_add(0x9e37_79b9_7f4a_7c15);
    z = (z ^ (z >> 30)).wrapping_mul(0xbf58_476d_1ce4_e5b9);
    z = (z ^ (z >> 27)).wrapping_mul(0x94d0_49bb_1331_11eb);
    z ^ (z >> 31)
}

/// Walks every ring through the public inspection methods and checks the table's
/// structural invariants.
fn check_structure(t: &HashTable<u64>) {
    let cap = t.capacity();
    assert!(cap.is_power_of_two());
    assert_eq!(t.mask() as usize, cap - 1);
    assert_eq!(1usize << (64 - t.shift()), cap);
    let occupied = (0..cap).filter(|i| t.bucket_state(*i) != BucketState::Empty).count();
    assert_eq!(occupied, t.count());
    let mut owner: Vec<Option<usize>> = vec![None; cap];
    for h in 0..cap {
        if t.bucket_state(h) != BucketState::Head {
            continue;
        }
        let mut i = h;
        let mut steps = 0usize;
        loop {
            assert_ne!(t.bucket_state(i), BucketState::Empty);
            assert_eq!(owner[i], None, "bucket {} on two rings", i);
            owner[i] = Some(h);
            assert_eq!(t.home(t.key_at(i).unwrap()), h);
            i = t.probe_link(i);
            steps += 1;
            assert!(steps <= cap);
            if i == h {
                break;
            }
            assert_eq!(t.bucket_state(i), BucketState::Interior);
        }
    }
    for i in 0..cap {
        match t.key_at(i) {
            Some(k) => {
                let home = t.home(k);
                assert_eq!(t.bucket_state(home), BucketState::Head);
                assert_eq!(owner[i], Some(home));
            }
            None => assert_eq!(owner[i], None),
        }
    }
}

fn keys_with_home(t: &HashTable<u64>, home: usize, count: usize) -> Vec<u64> {
    (1..).filter(|k| t.home(*k) == home).take(count).collect()
}

#[test]
fn colliding_keys_share_a_ring() {
    let mut t: HashTable<u64> = HashTable::with_capacity(8);
    let h = t.home(1);
    let k2 = keys_with_home(&t, h, 2)[1];
    assert_ne!(k2, 1);
    t.insert(1, 100);
    t.insert(k2, 200);
    assert_eq!(t.get(1), Some(&100));
    assert_eq!(t.get(k2), Some(&200));
    assert_eq!(t.bucket_state(h), BucketState::Head);
    let next = t.probe_link(h);
    assert_ne!(next, h);
    assert_eq!(t.bucket_state(next), BucketState::Interior);
    assert_eq!(t.key_at(next), Some(k2));
    assert_eq!(t.probe_link(next), h);
    check_structure(&t);
}

#[test]
fn new_home_displaces_squatter() {
    let mut t: HashTable<u64> = HashTable::with_capacity(8);
    let cap = t.capacity();
    assert_eq!(cap, 16);
    let h2 = 5usize;
    let h1 = (h2 + 1) & (cap - 1);
    let pair = keys_with_home(&t, h2, 2);
    let k3 = keys_with_home(&t, h1, 1)[0];
    t.insert(pair[0], 1);
    t.insert(pair[1], 2);
    assert_eq!(t.bucket_state(h1), BucketState::Interior);
    assert_eq!(t.key_at(h1), Some(pair[1]));
    t.insert(k3, 3);
    assert_eq!(t.bucket_state(h1), BucketState::Head);
    assert_eq!(t.key_at(h1), Some(k3));
    assert_eq!(t.probe_link(h1), h1);
    let moved = t.probe_link(h2);
    assert_ne!(moved, h1);
    assert_eq!(t.bucket_state(moved), BucketState::Interior);
    assert_eq!(t.key_at(moved), Some(pair[1]));
    assert_eq!(t.probe_link(moved), h2);
    assert_eq!(t.get(pair[0]), Some(&1));
    assert_eq!(t.get(pair[1]), Some(&2));
    assert_eq!(t.get(k3), Some(&3));
    check_structure(&t);
}

#[test]
fn delete_splices_tail_into_erased_bucket() {
    let mut t: HashTable<u64> = HashTable::with_capacity(8);
    let ks = keys_with_home(&t, 3, 3);
    let fillers: Vec<u64> = (1000..).filter(|k| t.home(*k) != 3).take(5).collect();
    for k in fillers.iter() {
        t.insert(*k, 0);
    }
    for (i, k) in ks.iter().enumerate() {
        t.insert(*k, i as u64);
    }
    assert_eq!(t.capacity(), 16);
    t.delete(ks[0]);
    assert_eq!(t.capacity(), 16);
    assert_eq!(t.bucket_state(3), BucketState::Head);
    assert_eq!(t.key_at(3), Some(ks[2]));
    assert_eq!(t.get(ks[0]), None);
    assert_eq!(t.get(ks[1]), Some(&1));
    assert_eq!(t.get(ks[2]), Some(&2));
    check_structure(&t);
    t.delete(ks[2]);
    t.delete(ks[1]);
    assert_eq!(t.get(ks[1]), None);
    assert_eq!(t.get(ks[2]), None);
    assert_eq!(t.count(), fillers.len());
    check_structure(&t);
}

#[test]
fn structure_holds_while_growing() {
    let mut t: HashTable<u64> = HashTable::with_capacity(1);
    assert_eq!(t.capacity(), 2);
    let mut i = 0u64;
    while t.capacity() < (1 << 20) {
        let cap = t.capacity();
        t.insert(mix(i), i);
        i += 1;
        if t.capacity() != cap || cap <= 1024 {
            check_structure(&t);
        }
    }
    check_structure(&t);
    for j in 0..i {
        assert_eq!(t.get(mix(j)), Some(&j));
    }
}

#[test]
fn structure_holds_while_deleting() {
    let mut t: HashTable<u64> = HashTable::with_capacity(2);
    for i in 0..2000u64 {
        t.insert(mix(i) % 5000, i);
    }
    check_structure(&t);
    for i in 0..2000u64 {
        t.delete(mix(i) % 5000);
        check_structure(&t);
    }
    assert_eq!(t.count(), 0);
}
