use scalable_cuckoo_filter::{DefaultHasher, Hasher};
use siphasher::sip::SipHasher13;
use std::hash::Hash;

#[test]
fn default_hasher_is_siphash_1_3() {
    let hasher = DefaultHasher::new();
    assert_eq!(hasher.keys(), (0, 0));
    for value in [0u64, 1, 2, 0xdead_beef, u64::MAX] {
        let expected = SipHasher13::new().hash(&value.to_le_bytes());
        assert_eq!(hasher.hash_u64(value), expected);
        if 1u16.to_ne_bytes() == 1u16.to_le_bytes() {
            let mut state = SipHasher13::new();
            std::hash::Hasher::write_u64(&mut state, value);
            assert_eq!(hasher.hash_u64(value), std::hash::Hasher::finish(&state));
        }
        assert_ne!(hasher.hash_u64(value), value);
        assert_eq!(hasher.hash_u64(value), hasher.hash_u64(value));
    }
    assert_ne!(hasher.hash_u64(1), hasher.hash_u64(2));
}

#[test]
fn keys_change_the_hash() {
    let hasher = DefaultHasher::new_with_keys(3, 5);
    assert_eq!(hasher.keys(), (3, 5));
    let expected = SipHasher13::new_with_keys(3, 5).hash(&7u64.to_le_bytes());
    assert_eq!(hasher.hash_u64(7), expected);
    assert_ne!(hasher.hash_u64(7), DefaultHasher::new().hash_u64(7));
}

#[test]
fn items_are_hashed_by_their_own_hash() {
    let hasher = DefaultHasher::new();
    let mut state = SipHasher13::new();
    "foo".hash(&mut state);
    assert_eq!(hasher.hash("foo"), std::hash::Hasher::finish(&state));
    assert_eq!(hasher.hash("foo"), hasher.hash(&"foo".to_string()));
    assert_ne!(hasher.hash("foo"), hasher.hash("bar"));
    if 1u16.to_ne_bytes() == 1u16.to_le_bytes() {
        assert_eq!(hasher.hash(&7u64), hasher.hash_u64(7));
    }
}
