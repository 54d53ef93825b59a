use phymmr_hashmap::table::{HashMapError, PhyHashMap, INITIAL_BUCKETS};

fn key(i: usize) -> Vec<u8> {
    format!("key-{}", i).into_bytes()
}

fn value(i: usize) -> Vec<u8> {
    format!("value-{}", i).into_bytes()
}

/// The first two keys of `key(0), key(1), ..` that live in `bucket`.
fn two_keys_in_bucket(table: &PhyHashMap, bucket: usize) -> (Vec<u8>, Vec<u8>) {
    let mut found: Vec<Vec<u8>> = Vec::new();
    let mut i = 0;
    while found.len() < 2 {
        if table.get_bucket_index(&key(i)) == bucket {
            found.push(key(i));
        }
        i += 1;
    }
    let second = found.pop().unwrap();
    let first = found.pop().unwrap();
    (first, second)
}

#[test]
fn new_table_is_empty() {
    let table = PhyHashMap::new();
    assert_eq!(table.len(), 0);
    assert_eq!(table.num_buckets(), 10);
    assert_eq!(INITIAL_BUCKETS, 10);
}

#[test]
fn get_of_a_key_never_inserted_is_not_found() {
    let mut table = PhyHashMap::new();
    assert_eq!(table.get(b"missing"), Err(HashMapError::NotFound));
    assert_eq!(table.get(b""), Err(HashMapError::NotFound));
    table.insert(b"present".to_vec(), b"1".to_vec());
    assert_eq!(table.get(b"missing"), Err(HashMapError::NotFound));
    assert_eq!(table.get(b"presen"), Err(HashMapError::NotFound));
    assert_eq!(table.get(b"present "), Err(HashMapError::NotFound));
}

#[test]
fn get_after_insert_yields_the_value() {
    let mut table = PhyHashMap::new();
    table.insert(b"k".to_vec(), b"v".to_vec());
    assert_eq!(table.get(b"k"), Ok(b"v".to_vec()));
    assert_eq!(table.len(), 1);
    // A lookup changes nothing.
    assert_eq!(table.get(b"k"), Ok(b"v".to_vec()));
    assert_eq!(table.len(), 1);
}

#[test]
fn insert_of_a_present_key_overwrites() {
    let mut table = PhyHashMap::new();
    table.insert(b"k".to_vec(), b"v1".to_vec());
    assert_eq!(table.len(), 1);
    table.insert(b"k".to_vec(), b"v2".to_vec());
    assert_eq!(table.get(b"k"), Ok(b"v2".to_vec()));
    assert_eq!(table.len(), 1);
}

#[test]
fn remove_after_insert_yields_the_value() {
    let mut table = PhyHashMap::new();
    table.insert(b"other".to_vec(), b"o".to_vec());
    table.insert(b"k".to_vec(), b"v".to_vec());
    assert_eq!(table.len(), 2);
    assert_eq!(table.remove(b"k"), Ok(b"v".to_vec()));
    assert_eq!(table.get(b"k"), Err(HashMapError::NotFound));
    assert_eq!(table.len(), 1);
    assert_eq!(table.get(b"other"), Ok(b"o".to_vec()));
}

#[test]
fn remove_of_a_key_never_inserted_is_not_found() {
    let mut table = PhyHashMap::new();
    assert_eq!(table.remove(b"k"), Err(HashMapError::NotFound));
    assert_eq!(table.len(), 0);
    table.insert(b"a".to_vec(), b"1".to_vec());
    table.insert(b"b".to_vec(), b"2".to_vec());
    assert_eq!(table.remove(b"k"), Err(HashMapError::NotFound));
    assert_eq!(table.len(), 2);
    assert_eq!(table.get(b"a"), Ok(b"1".to_vec()));
    assert_eq!(table.get(b"b"), Ok(b"2".to_vec()));
}

#[test]
fn remove_twice_is_not_found_the_second_time() {
    let mut table = PhyHashMap::new();
    table.insert(b"k".to_vec(), b"v".to_vec());
    assert_eq!(table.remove(b"k"), Ok(b"v".to_vec()));
    assert_eq!(table.remove(b"k"), Err(HashMapError::NotFound));
    assert_eq!(table.len(), 0);
}

#[test]
fn insert_after_remove_stores_again() {
    let mut table = PhyHashMap::new();
    table.insert(b"k".to_vec(), b"v1".to_vec());
    assert_eq!(table.remove(b"k"), Ok(b"v1".to_vec()));
    table.insert(b"k".to_vec(), b"v2".to_vec());
    assert_eq!(table.get(b"k"), Ok(b"v2".to_vec()));
    assert_eq!(table.len(), 1);
}

#[test]
fn distinct_keys_are_all_counted_and_found() {
    let mut table = PhyHashMap::new();
    for i in 0..100 {
        table.insert(key(i), value(i));
        assert_eq!(table.len(), i + 1);
    }
    assert_eq!(table.len(), 100);
    assert!(table.num_buckets() > INITIAL_BUCKETS);
    for i in 0..100 {
        assert_eq!(table.get(&key(i)), Ok(value(i)));
    }
    assert_eq!(table.get(&key(100)), Err(HashMapError::NotFound));
}

#[test]
fn growth_doubles_the_buckets_at_seven_tenths() {
    let mut table = PhyHashMap::new();
    for i in 0..6 {
        table.insert(key(i), value(i));
    }
    assert_eq!(table.num_buckets(), 10);
    table.insert(key(6), value(6));
    assert_eq!(table.len(), 7);
    assert_eq!(table.num_buckets(), 20);
    for i in 7..13 {
        table.insert(key(i), value(i));
    }
    assert_eq!(table.num_buckets(), 20);
    table.insert(key(13), value(13));
    assert_eq!(table.len(), 14);
    assert_eq!(table.num_buckets(), 40);
    for i in 14..27 {
        table.insert(key(i), value(i));
    }
    assert_eq!(table.num_buckets(), 40);
    table.insert(key(27), value(27));
    assert_eq!(table.num_buckets(), 80);
    for i in 0..28 {
        assert_eq!(table.get(&key(i)), Ok(value(i)));
    }
    assert_eq!(table.len(), 28);
}

#[test]
fn growth_keeps_every_pair() {
    let mut table = PhyHashMap::new();
    for i in 0..1_000 {
        table.insert(key(i), value(i));
    }
    assert_eq!(table.len(), 1_000);
    assert_eq!(table.num_buckets(), 2_560);
    for i in 0..1_000 {
        assert_eq!(table.get(&key(i)), Ok(value(i)));
    }
    for i in 0..1_000 {
        assert_eq!(table.remove(&key(i)), Ok(value(i)));
        assert_eq!(table.len(), 999 - i);
    }
    for i in 0..1_000 {
        assert_eq!(table.get(&key(i)), Err(HashMapError::NotFound));
    }
}

#[test]
fn overwriting_does_not_grow_the_table() {
    let mut table = PhyHashMap::new();
    for i in 0..6 {
        table.insert(key(i), value(i));
    }
    for round in 0..50 {
        for i in 0..6 {
            table.insert(key(i), value(round));
        }
    }
    assert_eq!(table.len(), 6);
    assert_eq!(table.num_buckets(), 10);
    for i in 0..6 {
        assert_eq!(table.get(&key(i)), Ok(value(49)));
    }
}

#[test]
fn removal_does_not_shrink_the_table() {
    let mut table = PhyHashMap::new();
    for i in 0..7 {
        table.insert(key(i), value(i));
    }
    assert_eq!(table.num_buckets(), 20);
    for i in 0..7 {
        assert_eq!(table.remove(&key(i)), Ok(value(i)));
    }
    assert_eq!(table.len(), 0);
    assert_eq!(table.num_buckets(), 20);
}

#[test]
fn colliding_keys_are_found_and_removed_independently() {
    let mut table = PhyHashMap::new();
    let (a, b) = two_keys_in_bucket(&table, 3);
    assert_ne!(a, b);
    assert_eq!(table.get_bucket_index(&a), 3);
    assert_eq!(table.get_bucket_index(&b), 3);
    table.insert(a.clone(), b"1".to_vec());
    table.insert(b.clone(), b"2".to_vec());
    assert_eq!(table.num_buckets(), 10);
    assert_eq!(table.get(&a), Ok(b"1".to_vec()));
    assert_eq!(table.get(&b), Ok(b"2".to_vec()));
    assert_eq!(table.remove(&a), Ok(b"1".to_vec()));
    assert_eq!(table.get(&b), Ok(b"2".to_vec()));
    assert_eq!(table.get(&a), Err(HashMapError::NotFound));
    assert_eq!(table.len(), 1);
    assert_eq!(table.remove(&b), Ok(b"2".to_vec()));
    assert_eq!(table.len(), 0);
}

#[test]
fn colliding_keys_are_overwritten_independently() {
    let mut table = PhyHashMap::new();
    let (a, b) = two_keys_in_bucket(&table, 0);
    table.insert(a.clone(), b"1".to_vec());
    table.insert(b.clone(), b"2".to_vec());
    table.insert(a.clone(), b"one".to_vec());
    assert_eq!(table.get(&a), Ok(b"one".to_vec()));
    assert_eq!(table.get(&b), Ok(b"2".to_vec()));
    assert_eq!(table.len(), 2);
    assert_eq!(table.remove(&b), Ok(b"2".to_vec()));
    assert_eq!(table.get(&a), Ok(b"one".to_vec()));
}

#[test]
fn a_miss_is_the_same_in_an_empty_bucket_and_in_a_filled_one() {
    let mut table = PhyHashMap::new();
    let (stored, absent) = two_keys_in_bucket(&table, 5);
    table.insert(stored.clone(), b"v".to_vec());
    // `absent` lives in the filled bucket 5.
    assert_eq!(table.get_bucket_index(&absent), 5);
    assert_eq!(table.get(&absent), Err(HashMapError::NotFound));
    assert_eq!(table.remove(&absent), Err(HashMapError::NotFound));
    // `elsewhere` lives in bucket 6, which is empty.
    let (elsewhere, _) = two_keys_in_bucket(&table, 6);
    assert_eq!(table.get(&elsewhere), Err(HashMapError::NotFound));
    assert_eq!(table.remove(&elsewhere), Err(HashMapError::NotFound));
    assert_eq!(table.len(), 1);
    assert_eq!(table.get(&stored), Ok(b"v".to_vec()));
}

#[test]
fn empty_key_and_empty_value_are_stored() {
    let mut table = PhyHashMap::new();
    table.insert(Vec::new(), Vec::new());
    assert_eq!(table.len(), 1);
    assert_eq!(table.get(b""), Ok(Vec::new()));
    table.insert(b"k".to_vec(), Vec::new());
    assert_eq!(table.get(b"k"), Ok(Vec::new()));
    assert_eq!(table.remove(b""), Ok(Vec::new()));
    assert_eq!(table.get(b""), Err(HashMapError::NotFound));
    assert_eq!(table.len(), 1);
}

#[test]
fn bytes_that_are_no_text_are_stored() {
    let mut table = PhyHashMap::new();
    let strange_key = vec![0xff, 0x00, 0xfe, 0x80];
    let strange_value = vec![0xc3, 0x28, 0x00];
    table.insert(strange_key.clone(), strange_value.clone());
    assert_eq!(table.get(&strange_key), Ok(strange_value.clone()));
    assert_eq!(table.get(&[0xff, 0x00, 0xfe]), Err(HashMapError::NotFound));
    assert_eq!(table.remove(&strange_key), Ok(strange_value));
}

#[test]
fn keys_that_share_a_prefix_are_distinct() {
    let mut table = PhyHashMap::new();
    table.insert(b"a".to_vec(), b"1".to_vec());
    table.insert(b"ab".to_vec(), b"2".to_vec());
    table.insert(b"abc".to_vec(), b"3".to_vec());
    assert_eq!(table.len(), 3);
    assert_eq!(table.get(b"a"), Ok(b"1".to_vec()));
    assert_eq!(table.get(b"ab"), Ok(b"2".to_vec()));
    assert_eq!(table.get(b"abc"), Ok(b"3".to_vec()));
    assert_eq!(table.remove(b"ab"), Ok(b"2".to_vec()));
    assert_eq!(table.get(b"a"), Ok(b"1".to_vec()));
    assert_eq!(table.get(b"abc"), Ok(b"3".to_vec()));
}

#[test]
fn the_value_handed_out_is_a_copy() {
    let mut table = PhyHashMap::new();
    table.insert(b"k".to_vec(), b"v".to_vec());
    let mut copy = table.get(b"k").unwrap();
    copy.push(b'!');
    assert_eq!(table.get(b"k"), Ok(b"v".to_vec()));
}

#[test]
fn every_key_stays_in_reach_as_buckets_change() {
    let mut table = PhyHashMap::new();
    for i in 0..200 {
        table.insert(key(i), value(i));
        assert!(table.get_bucket_index(&key(i)) < table.num_buckets());
        if i % 3 == 0 {
            assert_eq!(table.remove(&key(i / 2)).is_ok(), table.get(&key(i / 2)).is_err());
        }
    }
    let mut live = 0;
    for i in 0..200 {
        if let Ok(found) = table.get(&key(i)) {
            assert_eq!(found, value(i));
            live += 1;
        }
    }
    assert_eq!(table.len(), live);
}
