use rand::rngs::StdRng;
use rand::SeedableRng;
use scalable_cuckoo_filter::buckets::Buckets;

#[test]
fn buckets_it_works() {
    let mut buckets = Buckets::new(8, 4, 1000);
    assert_eq!(buckets.len(), 1024);
    assert_eq!(buckets.bits(), 1024 * 8 * 4);

    for i in 0..4 {
        assert!(!buckets.contains(333, 100 + i));
        assert!(buckets.try_insert(333, 100 + i));
        assert!(buckets.contains(333, 100 + i));
    }
    assert!(!buckets.try_insert(333, 104)); // full

    let mut rng = StdRng::from_os_rng();
    let old = buckets.random_swap(&mut rng, 333, 104);
    assert!(buckets.contains(333, 104));
    assert!(!buckets.contains(333, old));
}

#[test]
fn bucket_count_is_a_power_of_two() {
    assert_eq!(Buckets::required_number_of_buckets(0), 1);
    assert_eq!(Buckets::required_number_of_buckets(1), 1);
    assert_eq!(Buckets::required_number_of_buckets(2), 2);
    assert_eq!(Buckets::required_number_of_buckets(3), 4);
    assert_eq!(Buckets::required_number_of_buckets(1000), 1024);
    assert_eq!(Buckets::required_number_of_buckets(1024), 1024);
    assert_eq!(Buckets::required_number_of_buckets(1025), 2048);
    assert_eq!(Buckets::new(8, 4, 0).len(), 1);
    assert_eq!(Buckets::new(8, 4, 0).entries(), 4);
}

#[test]
fn fits_tells_what_can_be_addressed() {
    assert!(Buckets::fits(8, 4, 1000));
    assert!(Buckets::fits(64, 4, 1));
    assert!(!Buckets::fits(0, 4, 1000));
    assert!(!Buckets::fits(65, 4, 1000));
    assert!(!Buckets::fits(8, usize::MAX, 1000));
    assert!(!Buckets::fits(8, 4, usize::MAX));
}

#[test]
fn index_is_low_bits_and_fingerprint_is_top_bits() {
    let buckets = Buckets::new(12, 4, 1000);
    assert_eq!(buckets.fingerprint_bitwidth(), 12);
    assert_eq!(buckets.entries_per_bucket(), 4);
    assert_eq!(buckets.fingerprint_mask(), 0xfff);
    let hash = 0xabc0_0000_0000_07ffu64;
    assert_eq!(buckets.index(hash), 0x3ff);
    assert_eq!(buckets.fingerprint(hash), 0xabc);
    assert_eq!(buckets.index(1024), 0);
    assert_eq!(buckets.fingerprint(u64::MAX), 0xfff);
    let wide = Buckets::new(64, 1, 1);
    assert_eq!(wide.fingerprint(hash), hash);
    assert_eq!(wide.fingerprint_mask(), u64::MAX);
    assert_eq!(wide.index(hash), 0);
}

#[test]
fn swap_exchanges_one_slot() {
    let mut buckets = Buckets::new(8, 2, 4);
    assert!(buckets.try_insert(1, 7));
    assert!(buckets.try_insert(1, 9));
    assert_eq!(buckets.swap(1, 0, 11), 7);
    assert_eq!(buckets.get_fingerprint(1, 0), 11);
    assert_eq!(buckets.get_fingerprint(1, 1), 9);
    assert_eq!(buckets.swap(1, 1, 13), 9);
    assert!(buckets.contains(1, 11));
    assert!(buckets.contains(1, 13));
    assert!(!buckets.contains(1, 7));
    assert!(!buckets.contains(0, 11));
}

#[test]
fn remove_empties_the_first_match_only() {
    let mut buckets = Buckets::new(8, 4, 4);
    assert!(buckets.try_insert(2, 5));
    assert!(buckets.try_insert(2, 6));
    assert!(buckets.try_insert(2, 5));
    assert!(!buckets.remove_fingerprint(2, 9));
    assert!(buckets.remove_fingerprint(2, 5));
    assert_eq!(buckets.get_fingerprint(2, 0), 0);
    assert_eq!(buckets.get_fingerprint(2, 1), 6);
    assert_eq!(buckets.get_fingerprint(2, 2), 5);
    assert!(buckets.contains(2, 5));
    assert!(buckets.try_insert(2, 8));
    assert_eq!(buckets.get_fingerprint(2, 0), 8);
    assert!(buckets.remove_fingerprint(2, 5));
    assert!(!buckets.contains(2, 5));
    assert!(!buckets.remove_fingerprint(2, 5));
}

#[test]
fn iter_yields_every_occupied_slot_bucket_by_bucket() {
    let mut buckets = Buckets::new(8, 4, 4);
    assert!(buckets.try_insert(3, 30));
    assert!(buckets.try_insert(0, 1));
    assert!(buckets.try_insert(0, 2));
    assert!(buckets.try_insert(0, 3));
    assert!(buckets.try_insert(2, 20));
    assert!(buckets.remove_fingerprint(0, 2));
    let mut iter = buckets.iter();
    assert_eq!(iter.next(), Some((0, 1)));
    assert_eq!(iter.next(), Some((0, 3)));
    assert_eq!(iter.next(), Some((2, 20)));
    assert_eq!(iter.next(), Some((3, 30)));
    assert_eq!(iter.next(), None);
    assert_eq!(iter.next(), None);
    let empty = Buckets::new(8, 4, 4);
    assert_eq!(empty.iter().next(), None);
}
