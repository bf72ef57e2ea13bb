use bff::BinaryFuseFilter;
use bff::FingerprintSize;
use bff::NUM_SEGMENTS;

#[test]
fn test_new_filter() {
    let filter = BinaryFuseFilter::new(100, FingerprintSize::Bits16);
    assert_eq!(filter.len(), 0);
    assert!(filter.is_empty());
    assert!(filter.capacity() > 0);
}

#[test]
fn test_add_single_item() {
    let mut filter = BinaryFuseFilter::new(100, FingerprintSize::Bits16);
    filter.add(&"test");
    assert_eq!(filter.len(), 1);
}

#[test]
fn test_add_and_contains() {
    let mut filter = BinaryFuseFilter::new(100, FingerprintSize::Bits16);

    filter.add(&"hello");
    filter.add(&"world");
    filter.add(&"test");

    assert_eq!(filter.len(), 3);

    assert!(filter.contains(&"hello"));
    assert!(filter.contains(&"world"));
    assert!(filter.contains(&"test"));

    assert!(!filter.contains(&"not present"));
}

#[test]
fn test_different_types() {
    let mut filter = BinaryFuseFilter::new(100, FingerprintSize::Bits16);

    filter.add(&42u32);
    filter.add(&1337i64);
    filter.add(&vec![1, 2, 3]);

    assert!(filter.contains(&42u32));
    assert!(filter.contains(&1337i64));
    assert!(filter.contains(&vec![1, 2, 3]));

    assert!(!filter.contains(&0u32));
    assert!(!filter.contains(&0i64));
    assert!(!filter.contains(&vec![1, 2, 4]));
}

#[test]
fn test_memory_usage() {
    let filter = BinaryFuseFilter::new(100, FingerprintSize::Bits16);
    let expected_min = NUM_SEGMENTS * ((100f64 / NUM_SEGMENTS as f64).ceil() as usize) * 2;
    assert!(filter.memory_usage() >= expected_min);
}

#[test]
fn test_stats() {
    let mut filter = BinaryFuseFilter::new(100, FingerprintSize::Bits16);
    filter.add(&"test");

    let stats = filter.stats();
    assert_eq!(stats.size, 1);
    assert_eq!(stats.fingerprint_bits, 16);
    assert_eq!(stats.num_segments, NUM_SEGMENTS);
}

#[test]
fn test_with_seed() {
    let filter1 = BinaryFuseFilter::with_seed(100, FingerprintSize::Bits16, 12345);
    let filter2 = BinaryFuseFilter::with_seed(100, FingerprintSize::Bits16, 12345);

    assert_eq!(filter1.memory_usage(), filter2.memory_usage());
}

#[test]
fn test_large_dataset() {
    let mut filter = BinaryFuseFilter::new(500000, FingerprintSize::Bits16);

    for i in 0..100 {
        filter.add(&i);
    }

    for i in 0..100 {
        assert!(filter.contains(&i), "Element {} should be found", i);
    }

    for i in 100..200 {
        assert!(!filter.contains(&i), "Element {} should not be found", i);
    }
}

#[test]
fn test_string_keys() {
    let mut filter = BinaryFuseFilter::new(100, FingerprintSize::Bits16);

    let keys = vec!["", "a", "hello", "world", "test", "binary", "fuse", "filter"];
    for key in &keys {
        filter.add(key);
    }

    for key in &keys {
        assert!(filter.contains(key), "Key '{}' should be found", key);
    }
}

#[test]
fn test_8bit_fingerprint() {
    let mut filter = BinaryFuseFilter::new(100, FingerprintSize::Bits8);

    filter.add(&"hello");
    filter.add(&"world");

    assert!(filter.contains(&"hello"));
    assert!(filter.contains(&"world"));
    assert!(!filter.contains(&"not present"));

    let stats = filter.stats();
    assert_eq!(stats.fingerprint_bits, 8);
}

#[test]
fn test_8bit_uses_less_memory() {
    let filter_16 = BinaryFuseFilter::new(1000, FingerprintSize::Bits16);
    let filter_8 = BinaryFuseFilter::new(1000, FingerprintSize::Bits8);

    assert!(filter_8.memory_usage() < filter_16.memory_usage());
    assert!(filter_8.memory_usage() >= filter_16.memory_usage() / 2);
}
