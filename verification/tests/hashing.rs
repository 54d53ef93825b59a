use phymmr_hashmap::hashing::{bucket_index, should_grow};
use phymmr_hashmap::table::PhyHashMap;

#[test]
fn bucket_index_of_small_codes_is_the_remainder() {
    assert_eq!(bucket_index(0, 10), 0);
    assert_eq!(bucket_index(3, 10), 3);
    assert_eq!(bucket_index(13, 10), 3);
    assert_eq!(bucket_index(9_999, 10), 9);
    assert_eq!(bucket_index(12_345, 100), 45);
}

#[test]
fn bucket_index_of_a_single_bucket_is_zero() {
    assert_eq!(bucket_index(0, 1), 0);
    assert_eq!(bucket_index(77, 1), 0);
    assert_eq!(bucket_index(u64::MAX, 1), 0);
}

#[test]
fn bucket_index_takes_the_absolute_value_of_negative_codes() {
    // As a signed number u64::MAX is -1.
    assert_eq!(bucket_index(u64::MAX, 10), 1);
    // -13
    assert_eq!(bucket_index(u64::MAX - 12, 10), 3);
    // -27
    assert_eq!(bucket_index(u64::MAX - 26, 20), 7);
    // The most negative code, -2^63.
    assert_eq!(bucket_index(0x8000_0000_0000_0000, 10), 8);
    // The largest positive code, 2^63 - 1.
    assert_eq!(bucket_index(0x7fff_ffff_ffff_ffff, 10), 7);
}

#[test]
fn bucket_index_does_not_wrap_around() {
    // A plain unsigned remainder would give 5 here.
    assert_eq!(u64::MAX % 10, 5);
    assert_ne!(bucket_index(u64::MAX, 10), 5);
}

#[test]
fn bucket_index_stays_below_the_bucket_count() {
    let codes = [0u64, 1, 9, 10, 11, 1 << 40, (1 << 63) - 1, 1 << 63, (1 << 63) + 1, u64::MAX];
    let counts = [1usize, 2, 10, 20, 40, 1_000_003];
    for code in codes {
        for count in counts {
            assert!(bucket_index(code, count) < count);
        }
    }
}

#[test]
fn should_grow_at_seven_tenths() {
    assert!(!should_grow(0, 10));
    assert!(!should_grow(6, 10));
    assert!(should_grow(7, 10));
    assert!(should_grow(8, 10));
    assert!(!should_grow(13, 20));
    assert!(should_grow(14, 20));
    assert!(!should_grow(27, 40));
    assert!(should_grow(28, 40));
}

#[test]
fn should_grow_between_whole_sevenths() {
    // 7 of 11 is below seven tenths, 8 of 11 is above.
    assert!(!should_grow(7, 11));
    assert!(should_grow(8, 11));
}

#[test]
fn should_grow_on_the_largest_numbers() {
    assert!(should_grow(usize::MAX, usize::MAX));
    assert!(!should_grow(0, usize::MAX));
    assert!(should_grow(usize::MAX, 1));
    assert!(should_grow(0, 0));
}

#[test]
fn hash_key_gives_the_metro_hash_of_the_bytes() {
    let table = PhyHashMap::new();
    assert_eq!(table.hash_key(b"hello"), 6455825309044375053);
    assert_eq!(table.hash_key(b"helloworld"), 15512397028293617890);
}

#[test]
fn hash_key_is_stable_and_order_sensitive() {
    let table = PhyHashMap::new();
    assert_eq!(table.hash_key(b"abc"), table.hash_key(b"abc"));
    assert_ne!(table.hash_key(b"abc"), table.hash_key(b"cba"));
    assert_ne!(table.hash_key(b""), table.hash_key(b"\0"));
}

#[test]
fn hash_key_does_not_depend_on_the_table() {
    let empty = PhyHashMap::new();
    let mut filled = PhyHashMap::new();
    for i in 0..20u8 {
        filled.insert(vec![i], vec![i]);
    }
    assert_eq!(empty.hash_key(b"same"), filled.hash_key(b"same"));
}

#[test]
fn get_bucket_index_follows_hash_and_bucket_count() {
    let mut table = PhyHashMap::new();
    for round in 0..3 {
        for i in 0..40u32 {
            let key = format!("key-{}", i).into_bytes();
            let expected = bucket_index(table.hash_key(&key), table.num_buckets());
            assert_eq!(table.get_bucket_index(&key), expected);
            assert!(table.get_bucket_index(&key) < table.num_buckets());
        }
        for i in 0..10u32 {
            table.insert(format!("fill-{}-{}", round, i).into_bytes(), Vec::new());
        }
    }
}
