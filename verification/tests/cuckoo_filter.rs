use rand::rngs::StdRng;
use rand::SeedableRng;
use scalable_cuckoo_filter::buckets::Buckets;
use scalable_cuckoo_filter::cuckoo_filter::CuckooFilter;
use scalable_cuckoo_filter::exceptional_items::ExceptionalItems;
use scalable_cuckoo_filter::{DefaultHasher, Hasher};

fn hash_with(fingerprint: u64, width: u32, low: u64) -> u64 {
    (fingerprint << (64 - width)) | low
}

#[test]
fn new_filter_is_empty() {
    let filter = CuckooFilter::new(8, 4, 1000, 512);
    assert_eq!(filter.len(), 0);
    assert_eq!(filter.capacity(), 1024);
    assert_eq!(filter.bits(), 8 * 1024);
    assert_eq!(filter.max_kicks(), 512);
    assert!(!filter.is_nearly_full());
    assert_eq!(filter.buckets().len(), 256);
    assert_eq!(filter.exceptional_items().len(), 0);
    let smallest = CuckooFilter::new(8, 4, 0, 512);
    assert_eq!(smallest.buckets().len(), 1);
    assert_eq!(smallest.capacity(), 4);
}

#[test]
fn filter_sizes_that_cannot_be_addressed() {
    assert!(CuckooFilter::fits(8, 4, 1000));
    assert!(CuckooFilter::fits(8, 4, 0));
    assert!(!CuckooFilter::fits(8, 0, 1000));
    assert!(!CuckooFilter::fits(0, 4, 1000));
    assert!(!CuckooFilter::fits(65, 4, 1000));
    assert!(!CuckooFilter::fits(64, 1, usize::MAX));
}

#[test]
fn filter_finds_what_was_inserted() {
    let hasher = DefaultHasher::new();
    let mut rng = StdRng::seed_from_u64(1);
    let mut filter = CuckooFilter::new(16, 4, 1000, 512);
    for i in 0..500u64 {
        let hash = hasher.hash_u64(i);
        filter.insert(&hasher, &mut rng, hash);
        assert!(filter.contains(&hasher, hash));
    }
    assert_eq!(filter.len(), 500);
    for i in 0..500u64 {
        assert!(filter.contains(&hasher, hasher.hash_u64(i)));
    }
    for i in 0..500u64 {
        assert!(filter.remove(&hasher, hasher.hash_u64(i)));
    }
    assert_eq!(filter.len(), 0);
    for i in 0..500u64 {
        assert!(!filter.contains(&hasher, hasher.hash_u64(i)));
        assert!(!filter.remove(&hasher, hasher.hash_u64(i)));
    }
}

#[test]
fn fingerprint_zero_goes_to_the_side_list() {
    let hasher = DefaultHasher::new();
    let mut rng = StdRng::seed_from_u64(2);
    let mut filter = CuckooFilter::new(8, 4, 64, 512);
    let hash = hash_with(0, 8, 5);
    assert!(!filter.contains(&hasher, hash));
    filter.insert(&hasher, &mut rng, hash);
    assert_eq!(filter.len(), 1);
    assert_eq!(filter.exceptional_items().len(), 1);
    assert_eq!(filter.capacity(), 65);
    assert!(!filter.is_nearly_full());
    assert!(filter.contains(&hasher, hash));
    assert_eq!(filter.buckets().iter().next(), None);
    assert!(!filter.contains(&hasher, hash_with(0, 8, 6)));
    assert!(!filter.remove(&hasher, hash_with(0, 8, 6)));
    assert!(filter.remove(&hasher, hash));
    assert!(!filter.contains(&hasher, hash));
    assert!(!filter.remove(&hasher, hash));
    assert_eq!(filter.len(), 0);
}

#[test]
fn filter_is_nearly_full_when_eviction_gives_up() {
    let hasher = DefaultHasher::new();
    let mut rng = StdRng::seed_from_u64(3);
    let mut filter = CuckooFilter::new(8, 1, 1, 16);
    assert_eq!(filter.capacity(), 1);
    let first = hash_with(0x11, 8, 0);
    let second = hash_with(0x22, 8, 0);
    filter.insert(&hasher, &mut rng, first);
    assert!(!filter.is_nearly_full());
    assert_eq!(filter.capacity(), 1);
    filter.insert(&hasher, &mut rng, second);
    assert!(filter.is_nearly_full());
    assert_eq!(filter.len(), 2);
    assert_eq!(filter.capacity(), 2);
    assert!(filter.contains(&hasher, first));
    assert!(filter.contains(&hasher, second));
    assert!(filter.remove(&hasher, first));
    assert!(filter.remove(&hasher, second));
    assert!(!filter.is_nearly_full());
    assert_eq!(filter.len(), 0);
}

#[test]
fn item_inserted_twice_is_held_twice() {
    let hasher = DefaultHasher::new();
    let mut rng = StdRng::seed_from_u64(4);
    let mut filter = CuckooFilter::new(12, 4, 100, 512);
    let hash = hasher.hash_u64(42);
    filter.insert(&hasher, &mut rng, hash);
    filter.insert(&hasher, &mut rng, hash);
    assert_eq!(filter.len(), 2);
    assert!(filter.remove(&hasher, hash));
    assert!(filter.contains(&hasher, hash));
    assert!(filter.remove(&hasher, hash));
    assert!(!filter.contains(&hasher, hash));
    assert_eq!(filter.len(), 0);
}

#[test]
fn insert_fingerprint_takes_the_first_empty_slot() {
    let hasher = DefaultHasher::new();
    let mut rng = StdRng::seed_from_u64(5);
    let mut filter = CuckooFilter::new(8, 2, 16, 512);
    filter.insert_fingerprint(&hasher, &mut rng, 3, 0x41);
    filter.insert_fingerprint(&hasher, &mut rng, 3, 0x42);
    assert_eq!(filter.buckets().get_fingerprint(3, 0), 0x41);
    assert_eq!(filter.buckets().get_fingerprint(3, 1), 0x42);
    let other = filter.buckets().index(3 ^ hasher.hash_u64(0x43));
    filter.insert_fingerprint(&hasher, &mut rng, 3, 0x43);
    if other != 3 {
        assert_eq!(filter.buckets().get_fingerprint(other, 0), 0x43);
    }
    assert!(filter.contains_fingerprint(3, other, 0x43));
    assert!(filter.contains_fingerprint(other, 3, 0x43));
    assert_eq!(filter.len(), 3);
}

#[test]
fn shrunk_filter_keeps_what_lay_in_its_buckets() {
    let hasher = DefaultHasher::new();
    let mut rng = StdRng::seed_from_u64(6);
    let mut filter = CuckooFilter::new(16, 4, 4096, 512);
    for i in 0..100u64 {
        filter.insert(&hasher, &mut rng, hasher.hash_u64(i));
    }
    assert_eq!(filter.buckets().len(), 1024);
    filter.shrink_to_fit(&hasher, &mut rng);
    assert_eq!(filter.buckets().len(), 32);
    assert_eq!(filter.len(), 100);
    for i in 0..100u64 {
        assert!(filter.contains(&hasher, hasher.hash_u64(i)));
    }
    filter.shrink_to_fit(&hasher, &mut rng);
    assert_eq!(filter.buckets().len(), 32);
    for i in 0..50u64 {
        assert!(filter.remove(&hasher, hasher.hash_u64(i)));
    }
    filter.shrink_to_fit(&hasher, &mut rng);
    assert_eq!(filter.buckets().len(), 16);
    assert_eq!(filter.len(), 50);
    for i in 50..100u64 {
        assert!(filter.contains(&hasher, hasher.hash_u64(i)));
    }
}

#[test]
fn shrinking_keeps_the_side_list() {
    let hasher = DefaultHasher::new();
    let mut rng = StdRng::seed_from_u64(7);
    let mut filter = CuckooFilter::new(8, 4, 1024, 512);
    let parked = hash_with(0, 8, 9);
    let placed = hash_with(0x5a, 8, 9);
    filter.insert(&hasher, &mut rng, parked);
    filter.insert(&hasher, &mut rng, placed);
    assert_eq!(filter.len(), 2);
    filter.shrink_to_fit(&hasher, &mut rng);
    assert_eq!(filter.buckets().len(), 1);
    assert_eq!(filter.len(), 2);
    assert_eq!(filter.exceptional_items().to_vec(), vec![(0, 0)]);
    assert_eq!(filter.capacity(), 5);
    assert!(filter.contains(&hasher, placed));
    assert!(filter.contains(&hasher, parked));
    assert!(filter.remove(&hasher, parked));
    assert!(!filter.contains(&hasher, parked));
    assert_eq!(filter.len(), 1);
}

#[test]
fn shrinking_keeps_a_lone_fingerprint_zero() {
    let hasher = DefaultHasher::new();
    let mut rng = StdRng::seed_from_u64(10);
    let mut filter = CuckooFilter::new(8, 4, 64, 512);
    filter.insert(&hasher, &mut rng, 0);
    assert_eq!(filter.capacity(), 65);
    filter.shrink_to_fit(&hasher, &mut rng);
    assert!(filter.contains(&hasher, 0));
    assert_eq!(filter.len(), 1);
    assert_eq!(filter.capacity(), 5);
}

#[test]
fn shrinking_keeps_what_was_kicked_out() {
    let hasher = DefaultHasher::new();
    for seed in 0..8u64 {
        let mut rng = StdRng::seed_from_u64(seed);
        let mut filter = CuckooFilter::new(16, 1, 8, 8);
        for i in 0..12u64 {
            filter.insert(&hasher, &mut rng, hasher.hash_u64(i));
        }
        assert_eq!(filter.len(), 12);
        assert!(filter.is_nearly_full());
        assert!(filter.exceptional_items().len() >= 4);
        for i in 0..9u64 {
            assert!(filter.remove(&hasher, hasher.hash_u64(i)));
        }
        assert_eq!(filter.len(), 3);
        filter.shrink_to_fit(&hasher, &mut rng);
        assert_eq!(filter.buckets().len(), 4);
        assert_eq!(filter.len(), 3);
        for i in 9..12u64 {
            assert!(filter.contains(&hasher, hasher.hash_u64(i)));
        }
        for i in 9..12u64 {
            assert!(filter.remove(&hasher, hasher.hash_u64(i)));
        }
        assert_eq!(filter.len(), 0);
        assert_eq!(filter.capacity(), 4);
    }
}

#[test]
fn filter_that_never_evicts_parks_at_once() {
    let hasher = DefaultHasher::new();
    let mut rng = StdRng::seed_from_u64(8);
    let mut filter = CuckooFilter::new(8, 1, 1, 0);
    filter.insert(&hasher, &mut rng, hash_with(0x11, 8, 0));
    assert!(!filter.is_nearly_full());
    filter.insert(&hasher, &mut rng, hash_with(0x22, 8, 0));
    assert!(filter.is_nearly_full());
    assert_eq!(filter.len(), 2);
    assert_eq!(filter.exceptional_items().to_vec(), vec![(0x22, 0)]);
    assert_eq!(filter.buckets().get_fingerprint(0, 0), 0x11);
}

#[test]
fn filter_is_put_together_from_parts_that_agree() {
    let hasher = DefaultHasher::new();
    let mut rng = StdRng::seed_from_u64(9);
    let mut filter = CuckooFilter::new(12, 4, 64, 512);
    for i in 0..40u64 {
        filter.insert(&hasher, &mut rng, hasher.hash_u64(i));
    }
    filter.insert(&hasher, &mut rng, 7);
    let buckets = filter.buckets().clone();
    let list = filter.exceptional_items().clone();
    let rebuilt = CuckooFilter::from_parts(buckets, 512, list, filter.len());
    let rebuilt = rebuilt.expect("the parts agree");
    assert_eq!(rebuilt.len(), 41);
    for i in 0..40u64 {
        assert!(rebuilt.contains(&hasher, hasher.hash_u64(i)));
    }
    assert!(rebuilt.contains(&hasher, 7));
    let buckets = filter.buckets().clone();
    let list = filter.exceptional_items().clone();
    assert!(CuckooFilter::from_parts(buckets, 512, list, 40).is_none());
    let no_entries = Buckets::new(12, 0, 16);
    assert!(CuckooFilter::from_parts(no_entries, 512, ExceptionalItems::new(), 0).is_none());
}

#[test]
fn filter_that_never_evicts_parks_under_the_pair() {
    let hasher = DefaultHasher::new();
    // A fingerprint whose two buckets differ where there are two buckets.
    let fingerprint = (1..256u64)
        .find(|f| hasher.hash_u64(*f) & 1 == 1)
        .expect("some hash is odd");
    for seed in 0..16u64 {
        let mut rng = StdRng::seed_from_u64(seed);
        let mut filter = CuckooFilter::new(8, 1, 2, 0);
        assert_eq!(filter.buckets().len(), 2);
        filter.insert_fingerprint(&hasher, &mut rng, 0, 0xa0);
        filter.insert_fingerprint(&hasher, &mut rng, 1, 0xa1);
        assert_eq!(filter.exceptional_items().len(), 0);
        let hash = hash_with(fingerprint, 8, 1);
        filter.insert(&hasher, &mut rng, hash);
        assert_eq!(filter.exceptional_items().to_vec(), vec![(fingerprint, 0)]);
        assert!(filter.contains(&hasher, hash));
        assert!(filter.contains(&hasher, hash_with(fingerprint, 8, 0)));
        assert_eq!(filter.len(), 3);
        assert!(filter.remove(&hasher, hash));
        assert!(!filter.contains(&hasher, hash));
    }
}
