use rand::rngs::StdRng;
use rand::SeedableRng;
use scalable_cuckoo_filter::{
    DefaultHasher, Hasher, ScalableCuckooFilter, ScalableCuckooFilterBuilder,
};

#[test]
fn scalable_cuckoo_filter_it_works() {
    let mut filter = ScalableCuckooFilter::<str>::new(1000, 0.001f64.to_bits());
    assert!(filter.is_empty());
    assert_eq!(filter.bits(), 14_336);

    assert!(!filter.contains("foo"));
    filter.insert("foo");
    assert!(filter.contains("foo"));
}

#[test]
fn clone_string_and_str() {
    let mut filter: ScalableCuckooFilter<String> =
        ScalableCuckooFilter::new(1000, 0.001f64.to_bits());
    let x = "foo".to_owned();
    filter.insert(&x);
    let cloned = filter.clone();
    assert!(filter.contains(&"foo".to_string()));
    assert!(cloned.contains(&"foo".to_string()));

    let mut filter: ScalableCuckooFilter<str> = ScalableCuckooFilter::new(1000, 0.001f64.to_bits());
    let x = "foo";
    filter.insert(x);
    let cloned = filter.clone();
    assert!(filter.contains("foo"));
    assert!(cloned.contains("foo"));
}

#[test]
fn insert_works() {
    let mut seed = [0; 32];
    for i in 0..seed.len() {
        seed[i] = i as u8;
    }

    let rng: StdRng = SeedableRng::from_seed(seed);
    let mut filter = ScalableCuckooFilterBuilder::new()
        .initial_capacity(100)
        .false_positive_probability(0.00001f64.to_bits())
        .rng(rng)
        .finish();
    for i in 0..10_000 {
        assert!(!filter.contains(&i));
        filter.insert(&i);
        assert!(filter.contains(&i));
    }
    assert_eq!(filter.len(), 10_000);
}

#[test]
fn remove_works() {
    let mut seed = [0; 32];
    for i in 0..seed.len() {
        seed[i] = i as u8;
    }

    let rng: StdRng = SeedableRng::from_seed(seed);
    let mut filter = ScalableCuckooFilterBuilder::new()
        .initial_capacity(100)
        .false_positive_probability(0.00001f64.to_bits())
        .rng(rng)
        .finish();

    for i in 0..10_000 {
        filter.insert(&i);
    }
    for i in 0..10_000 {
        assert!(filter.remove(&i));
        assert!(!filter.contains(&i));
    }
    for i in 0..10_000 {
        assert!(!filter.remove(&i));
    }
}

#[test]
fn fingerprint_collision_remove_works() {
    let mut filter = ScalableCuckooFilter::<str>::new(1000, 0.001f64.to_bits());
    filter.insert("foo");
    filter.insert("foo");
    assert!(filter.contains("foo"));

    filter.remove("foo");
    assert!(filter.contains("foo"));

    filter.remove("foo");
    assert!(!filter.contains("foo"));
}

#[test]
fn shrink_to_fit_works() {
    let mut filter = ScalableCuckooFilter::new(1000, 0.001f64.to_bits());
    for i in 0..100 {
        filter.insert(&i);
    }
    assert_eq!(filter.capacity(), 1024);
    assert_eq!(filter.bits(), 14336);

    filter.shrink_to_fit();
    for i in 0..100 {
        assert!(filter.contains(&i));
    }
    assert_eq!(filter.capacity(), 128);
    assert_eq!(filter.bits(), 1792);
}

#[test]
fn info_params() {
    let mut filter = ScalableCuckooFilter::new(10, 0.001f64.to_bits());

    // constant values
    assert_eq!(filter.max_kicks(), 512);
    assert_eq!(filter.entries_per_bucket(), 4);
    assert_eq!(f64::from_bits(filter.false_positive_probability()), 0.001);
    // dynamic values
    assert_eq!(filter.bits(), 224);
    assert_eq!(filter.capacity(), 16);

    for i in 0..100 {
        filter.insert(&i);
    }

    assert_eq!(filter.bits(), 2752);
    assert_eq!(filter.capacity(), 114);
}

#[test]
fn filter_grows_automatically() {
    let mut filter = ScalableCuckooFilter::<usize>::new(100, 0.001f64.to_bits());
    assert_eq!(filter.capacity(), 128);

    for i in 0..1000 {
        filter.insert(&i);
    }
    assert_eq!(filter.capacity(), 1923);
    assert_eq!(filter.len(), 1000);
}

#[test]
fn remove_all_leaves_nothing() {
    let mut seed = [0; 32];
    for i in 0..seed.len() {
        seed[i] = i as u8;
    }
    let rng: StdRng = SeedableRng::from_seed(seed);
    let mut filter = ScalableCuckooFilterBuilder::new()
        .initial_capacity(100)
        .false_positive_probability(0.00001f64.to_bits())
        .rng(rng)
        .finish();
    for i in 0..10_000 {
        filter.insert(&i);
    }
    assert_eq!(filter.len(), 10_000);
    for i in 0..10_000 {
        assert!(filter.contains(&i));
    }
    for i in 0..10_000 {
        assert!(filter.remove(&i));
    }
    assert_eq!(filter.len(), 0);
    assert!(filter.is_empty());
    for i in 0..10_000 {
        assert!(!filter.contains(&i));
    }
}

#[test]
fn builder_sets_each_parameter() {
    let filter: ScalableCuckooFilter<u64> = ScalableCuckooFilterBuilder::new()
        .initial_capacity(50)
        .false_positive_probability(0.5f64.to_bits())
        .entries_per_bucket(2)
        .max_kicks(7)
        .rng(StdRng::seed_from_u64(11))
        .finish();
    assert_eq!(filter.initial_capacity(), 50);
    assert_eq!(f64::from_bits(filter.false_positive_probability()), 0.5);
    assert_eq!(filter.entries_per_bucket(), 2);
    assert_eq!(filter.max_kicks(), 7);
    assert_eq!(filter.filters().len(), 1);
    // ceil(50 / 2) = 25 buckets are rounded up to 32; 2 * 2 / (0.5 / 2) = 16 = 2^4.
    assert_eq!(filter.capacity(), 64);
    assert_eq!(filter.bits(), 4 * 64);
    assert_eq!(filter.len(), 0);
    assert!(filter.is_empty());
}

#[test]
fn default_builder_has_the_default_parameters() {
    let filter: ScalableCuckooFilter<u64> = ScalableCuckooFilterBuilder::default().finish();
    assert_eq!(filter.initial_capacity(), 100_000);
    assert_eq!(f64::from_bits(filter.false_positive_probability()), 0.001);
    assert_eq!(filter.entries_per_bucket(), 4);
    assert_eq!(filter.max_kicks(), 512);
    assert_eq!(filter.hasher().keys(), (0, 0));
    // ceil(100000 / 4) = 25000 buckets are rounded up to 32768.
    assert_eq!(filter.capacity(), 4 * 32768);
    assert_eq!(filter.bits(), 14 * 4 * 32768);
}

#[test]
fn builder_tells_what_cannot_be_built() {
    assert!(ScalableCuckooFilterBuilder::new().can_finish());
    assert!(ScalableCuckooFilterBuilder::new().initial_capacity(0).can_finish());
    assert!(!ScalableCuckooFilterBuilder::new().entries_per_bucket(0).can_finish());
    assert!(!ScalableCuckooFilterBuilder::new()
        .initial_capacity(usize::MAX)
        .can_finish());
    assert!(!ScalableCuckooFilterBuilder::new()
        .false_positive_probability(f64::MIN_POSITIVE.to_bits())
        .can_finish());
    let smallest: ScalableCuckooFilter<u64> =
        ScalableCuckooFilterBuilder::new().initial_capacity(0).finish();
    assert_eq!(smallest.capacity(), 4);
}

#[test]
fn hasher_keys_decide_where_items_go() {
    let mut filter: ScalableCuckooFilter<u64> = ScalableCuckooFilterBuilder::new()
        .initial_capacity(100)
        .hasher(DefaultHasher::new_with_keys(1, 2))
        .finish();
    assert_eq!(filter.hasher().keys(), (1, 2));
    for i in 0..50u64 {
        filter.insert(&i);
    }
    for i in 0..50u64 {
        assert!(filter.contains(&i));
    }
    let hash = filter.hasher().hash(&7u64);
    assert!(filter.contains_hash(hash));
    assert!(filter.remove_hash(hash));
    assert!(!filter.contains(&7));
    filter.insert_hash(hash);
    assert!(filter.contains(&7));
}

#[test]
fn growth_adds_a_filter_with_twice_the_places() {
    let mut filter = ScalableCuckooFilter::<u64>::new(10, 0.001f64.to_bits());
    assert_eq!(filter.filters().len(), 1);
    let mut i = 0u64;
    while filter.filters().len() < 4 {
        filter.insert(&i);
        i += 1;
    }
    let widths: Vec<usize> = filter
        .filters()
        .iter()
        .map(|f| f.buckets().fingerprint_bitwidth())
        .collect();
    assert_eq!(widths, vec![14, 15, 16, 17]);
    let places: Vec<usize> = filter.filters().iter().map(|f| f.buckets().entries()).collect();
    assert_eq!(places, vec![16, 32, 64, 128]);
    for filter in &filter.filters()[..3] {
        assert!(filter.is_nearly_full());
    }
    assert!(!filter.filters()[3].is_nearly_full());
    assert_eq!(filter.len() as u64, i);
    for j in 0..i {
        assert!(filter.contains(&j));
    }
}

#[test]
fn copy_does_not_follow_the_filter() {
    let mut filter = ScalableCuckooFilter::<u64>::new(100, 0.001f64.to_bits());
    filter.insert(&1);
    let mut copy = filter.clone();
    filter.insert(&2);
    assert!(copy.remove(&1));
    assert!(filter.contains(&1));
    assert!(filter.contains(&2));
    assert!(!copy.contains(&1));
    assert!(!copy.contains(&2));
    assert_eq!(filter.len(), 2);
    assert_eq!(copy.len(), 0);
}

#[test]
fn shrinking_after_removals_keeps_the_rest() {
    let mut filter = ScalableCuckooFilter::<u64>::new(1000, 0.001f64.to_bits());
    for i in 0..600u64 {
        filter.insert(&i);
    }
    for i in 0..500u64 {
        assert!(filter.remove(&i));
    }
    let before = filter.capacity();
    filter.shrink_to_fit();
    assert!(filter.capacity() < before);
    assert_eq!(filter.capacity(), 128);
    assert_eq!(filter.len(), 100);
    for i in 500..600u64 {
        assert!(filter.contains(&i));
    }
}

#[test]
fn shrinking_keeps_items_of_the_side_lists() {
    let mut filter = ScalableCuckooFilter::<u64>::new(1000, 0.001f64.to_bits());
    // The top 14 bits of this hash are 0: its fingerprint is 0.
    filter.insert_hash(5);
    for i in 0..100u64 {
        filter.insert(&i);
    }
    assert_eq!(filter.len(), 101);
    assert_eq!(filter.capacity(), 1025);
    filter.shrink_to_fit();
    assert!(filter.contains_hash(5));
    for i in 0..100u64 {
        assert!(filter.contains(&i));
    }
    assert_eq!(filter.len(), 101);
    assert_eq!(filter.capacity(), 129);
}
