use scalable_cuckoo_filter::probability::{
    filter_capacity, fingerprint_bitwidth, is_probability_bits,
};

#[test]
fn probabilities_lie_above_zero_and_up_to_one() {
    assert!(is_probability_bits(1.0f64.to_bits()));
    assert!(is_probability_bits(0.5f64.to_bits()));
    assert!(is_probability_bits(0.001f64.to_bits()));
    assert!(is_probability_bits(f64::MIN_POSITIVE.to_bits()));
    assert!(is_probability_bits(5e-324f64.to_bits()));
    assert!(!is_probability_bits(0.0f64.to_bits()));
    assert!(!is_probability_bits((-0.0f64).to_bits()));
    assert!(!is_probability_bits((-0.5f64).to_bits()));
    assert!(!is_probability_bits(1.0000000000000002f64.to_bits()));
    assert!(!is_probability_bits(2.0f64.to_bits()));
    assert!(!is_probability_bits(f64::INFINITY.to_bits()));
    assert!(!is_probability_bits(f64::NAN.to_bits()));
}

#[test]
fn fingerprint_width_is_the_least_that_meets_the_budget() {
    // ceil(log2(1 / (0.001 / 2)) + log2(8)) = ceil(10.97 + 3)
    assert_eq!(fingerprint_bitwidth(0.001f64.to_bits(), 4, 0), Some(14));
    // ceil(log2(1 / (0.00001 / 2)) + log2(8)) = ceil(17.61 + 3)
    assert_eq!(fingerprint_bitwidth(0.00001f64.to_bits(), 4, 0), Some(21));
    // 2 * 1 / (1 / 2) = 4 = 2^2
    assert_eq!(fingerprint_bitwidth(1.0f64.to_bits(), 1, 0), Some(2));
    // 2 * 4 / (0.5 / 2) = 32 = 2^5
    assert_eq!(fingerprint_bitwidth(0.5f64.to_bits(), 4, 0), Some(5));
    // 2 * 3 / (0.75 / 2) = 16 = 2^4, a power of two from numbers that are none
    assert_eq!(fingerprint_bitwidth(0.75f64.to_bits(), 3, 0), Some(4));
    // 2 * 3 / (0.001 / 2) = 12000, between 2^13 and 2^14
    assert_eq!(fingerprint_bitwidth(0.001f64.to_bits(), 3, 0), Some(14));
    // 2 * 2^40 / (1 / 2) = 2^42
    assert_eq!(fingerprint_bitwidth(1.0f64.to_bits(), 1 << 40, 0), Some(42));
}

#[test]
fn each_filter_has_fingerprints_one_bit_wider() {
    for k in 0..50 {
        assert_eq!(fingerprint_bitwidth(0.001f64.to_bits(), 4, k), Some(14 + k));
    }
    assert_eq!(fingerprint_bitwidth(0.001f64.to_bits(), 4, 50), Some(64));
    assert_eq!(fingerprint_bitwidth(0.001f64.to_bits(), 4, 51), None);
    assert_eq!(fingerprint_bitwidth(1.0f64.to_bits(), 1, 62), Some(64));
    assert_eq!(fingerprint_bitwidth(1.0f64.to_bits(), 1, 63), None);
    assert_eq!(fingerprint_bitwidth(1.0f64.to_bits(), 1, usize::MAX), None);
}

#[test]
fn fingerprints_wider_than_a_hash_are_refused() {
    assert_eq!(fingerprint_bitwidth(f64::MIN_POSITIVE.to_bits(), 4, 0), None);
    assert_eq!(fingerprint_bitwidth(5e-324f64.to_bits(), 1, 0), None);
    assert_eq!(fingerprint_bitwidth(1.0f64.to_bits(), usize::MAX, 0), None);
    // 2 * 1 / (2^-62 / 2) = 2^64
    assert_eq!(fingerprint_bitwidth(2.0f64.powi(-62).to_bits(), 1, 0), Some(64));
    assert_eq!(fingerprint_bitwidth(2.0f64.powi(-63).to_bits(), 1, 0), None);
}

#[test]
fn places_double_from_filter_to_filter() {
    assert_eq!(filter_capacity(100, 0), Some(100));
    assert_eq!(filter_capacity(100, 1), Some(200));
    assert_eq!(filter_capacity(100, 3), Some(800));
    assert_eq!(filter_capacity(0, 1000), Some(0));
    assert_eq!(filter_capacity(1, 10), Some(1024));
    assert_eq!(filter_capacity(usize::MAX, 0), Some(usize::MAX));
    assert_eq!(filter_capacity(usize::MAX, 1), None);
    assert_eq!(filter_capacity(1, usize::BITS as usize), None);
    assert_eq!(
        filter_capacity(1, usize::BITS as usize - 1),
        Some(1 << (usize::BITS - 1))
    );
    assert_eq!(filter_capacity(3, usize::BITS as usize - 1), None);
}
