use rand::rngs::StdRng;
use rand::SeedableRng;
use scalable_cuckoo_filter::bits::Bits;
use scalable_cuckoo_filter::buckets::Buckets;
use scalable_cuckoo_filter::cuckoo_filter::CuckooFilter;
use scalable_cuckoo_filter::exceptional_items::ExceptionalItems;
use scalable_cuckoo_filter::configuration::Configuration;
use scalable_cuckoo_filter::{DefaultHasher, ScalableCuckooFilter};

#[test]
fn bits_are_read_back_from_their_bytes() {
    let mut bits = Bits::new(24);
    bits.set_uint(4, 9, 0x155);
    assert_eq!(bits.to_bytes(), vec![0x50, 0x15, 0x00]);
    let copy = Bits::from_bytes(bits.to_bytes()).expect("three bytes fit");
    assert_eq!(copy.len(), 24);
    assert_eq!(copy.get_uint(4, 9), 0x155);
    assert_eq!(Bits::from_bytes(vec![0x01, 0x80]).map(|b| b.get_uint(0, 16)), Some(0x8001));
    assert_eq!(Bits::from_bytes(vec![]).map(|b| b.len()), Some(0));
}

#[test]
fn buckets_are_read_back_from_their_parts() {
    let mut buckets = Buckets::new(8, 4, 4);
    assert!(buckets.try_insert(1, 7));
    assert!(buckets.try_insert(3, 9));
    assert_eq!(buckets.index_bitwidth(), 2);
    let copy = Buckets::from_parts(8, 4, 2, buckets.as_bits().clone()).expect("the parts fit");
    assert_eq!(copy.len(), 4);
    assert_eq!(copy.get_fingerprint(1, 0), 7);
    assert_eq!(copy.get_fingerprint(3, 0), 9);
    assert_eq!(copy.get_fingerprint(0, 0), 0);
    assert!(Buckets::from_parts(8, 4, 3, buckets.as_bits().clone()).is_none());
    assert!(Buckets::from_parts(4, 4, 2, buckets.as_bits().clone()).is_none());
    assert!(Buckets::from_parts(0, 4, 2, buckets.as_bits().clone()).is_none());
    assert!(Buckets::from_parts(65, 4, 2, buckets.as_bits().clone()).is_none());
    assert!(Buckets::from_parts(8, 4, usize::BITS as usize, buckets.as_bits().clone()).is_none());
    assert!(Buckets::from_parts(8, usize::MAX, 2, buckets.as_bits().clone()).is_none());
    // 3 slots of 5 bits take 15 bits, which two bytes hold.
    assert!(Buckets::from_parts(5, 3, 0, Bits::new(15)).is_some());
    assert!(Buckets::from_parts(5, 3, 0, Bits::new(24)).is_none());
}

#[test]
fn growing_filter_is_read_back_from_its_parts() {
    let mut filter = ScalableCuckooFilter::<u64>::new(10, 0.001f64.to_bits());
    for i in 0..100u64 {
        filter.insert(&i);
    }
    let configuration = Configuration {
        initial_capacity: filter.initial_capacity(),
        false_positive_probability: filter.false_positive_probability(),
        entries_per_bucket: filter.entries_per_bucket(),
        max_kicks: filter.max_kicks(),
    };
    let copy = ScalableCuckooFilter::<u64>::from_parts(
        *filter.hasher(),
        StdRng::seed_from_u64(0),
        configuration,
        filter.filters().clone(),
    )
    .expect("the parts are sound");
    assert_eq!(copy.len(), 100);
    assert_eq!(copy.capacity(), 114);
    for i in 0..100u64 {
        assert!(copy.contains(&i));
    }
    assert!(!copy.contains(&100));
}

#[test]
fn parts_that_are_not_sound_are_refused() {
    let filter = ScalableCuckooFilter::<u64>::new(10, 0.001f64.to_bits());
    let configuration = Configuration {
        initial_capacity: 10,
        false_positive_probability: 0.001f64.to_bits(),
        entries_per_bucket: 4,
        max_kicks: 512,
    };
    let rebuild = |configuration: Configuration, filters: Vec<CuckooFilter>| {
        ScalableCuckooFilter::<u64>::from_parts(
            DefaultHasher::new(),
            StdRng::seed_from_u64(0),
            configuration,
            filters,
        )
    };
    assert!(rebuild(configuration, filter.filters().clone()).is_some());
    assert!(rebuild(configuration, vec![]).is_none());
    let mut other = configuration;
    other.false_positive_probability = 0.01f64.to_bits();
    assert!(rebuild(other, filter.filters().clone()).is_none());
    let mut other = configuration;
    other.false_positive_probability = 0.0f64.to_bits();
    assert!(rebuild(other, filter.filters().clone()).is_none());
    let mut other = configuration;
    other.entries_per_bucket = 2;
    assert!(rebuild(other, filter.filters().clone()).is_none());
    let mut other = configuration;
    other.max_kicks = 5;
    assert!(rebuild(other, filter.filters().clone()).is_none());
    // The second filter of the schedule has fingerprints of 15 bits, not of 14.
    let twice = vec![filter.filters()[0].clone(), filter.filters()[0].clone()];
    assert!(rebuild(configuration, twice).is_none());
    let scheduled = vec![CuckooFilter::new(14, 4, 10, 512), CuckooFilter::new(15, 4, 20, 512)];
    assert!(rebuild(configuration, scheduled).is_some());
}

type FilterParts = ((usize, usize, usize, Vec<u8>), usize, Vec<(u64, usize)>, usize);
type Parts = (Vec<FilterParts>, usize, f64, usize, usize);

fn parts_of(filter: &ScalableCuckooFilter<usize>) -> Parts {
    let filters = filter
        .filters()
        .iter()
        .map(|f| {
            let buckets = f.buckets();
            (
                (
                    buckets.fingerprint_bitwidth(),
                    buckets.entries_per_bucket(),
                    buckets.index_bitwidth(),
                    buckets.as_bits().to_bytes(),
                ),
                f.max_kicks(),
                f.exceptional_items().to_vec(),
                f.len(),
            )
        })
        .collect();
    (
        filters,
        filter.initial_capacity(),
        f64::from_bits(filter.false_positive_probability()),
        filter.entries_per_bucket(),
        filter.max_kicks(),
    )
}

fn filter_of(parts: Parts) -> Option<ScalableCuckooFilter<usize>> {
    let (filters, initial_capacity, probability, entries_per_bucket, max_kicks) = parts;
    let mut restored = Vec::new();
    for ((width, entries, index_bits, bytes), kicks, list, item_count) in filters {
        let buckets = Buckets::from_parts(width, entries, index_bits, Bits::from_bytes(bytes)?)?;
        let list = ExceptionalItems::from_vec(list)?;
        restored.push(CuckooFilter::from_parts(buckets, kicks, list, item_count)?);
    }
    let configuration = Configuration {
        initial_capacity,
        false_positive_probability: probability.to_bits(),
        entries_per_bucket,
        max_kicks,
    };
    ScalableCuckooFilter::from_parts(
        DefaultHasher::new(),
        StdRng::seed_from_u64(0),
        configuration,
        restored,
    )
}

#[test]
fn serialize_dezerialize_works() {
    let mut filter = ScalableCuckooFilter::new(1000, 0.001f64.to_bits());
    for i in 0..100 {
        filter.insert(&i);
    }
    filter.shrink_to_fit();
    let serialized = serde_json::to_string(&parts_of(&filter)).unwrap();
    let deserialized: ScalableCuckooFilter<usize> =
        filter_of(serde_json::from_str(&serialized).unwrap()).unwrap();
    for i in 0..100 {
        assert!(filter.contains(&i));
        assert!(deserialized.contains(&i));
    }
}
