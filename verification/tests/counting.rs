use bloomlib::canonical::Value;
use bloomlib::counting_bloom_filter::CountingBloomFilter;

fn text(s: &str) -> Value {
    Value::Text(s.to_string())
}

#[test]
fn test_add_and_check() {
    let mut bloom_filter = CountingBloomFilter::new(100, 3);
    assert_eq!(bloom_filter.contains(&text("item1")), false);
    bloom_filter.add(&text("item1"));
    assert_eq!(bloom_filter.contains(&text("item1")), true);
}

#[test]
fn test_remove() {
    let mut bloom_filter = CountingBloomFilter::new(100, 3);
    bloom_filter.add(&text("item1"));
    assert_eq!(bloom_filter.contains(&text("item1")), true);
    bloom_filter.remove(&text("item1"));
    assert_eq!(bloom_filter.contains(&text("item1")), false);
}

#[test]
fn test_false_positive() {
    let mut bloom_filter = CountingBloomFilter::new(100, 3);
    bloom_filter.add(&text("item1"));
    // Note: This test may fail due to the probabilistic nature of Bloom filters
    assert_eq!(bloom_filter.contains(&text("item2")), false);
}

#[test]
fn test_multiple_items() {
    let mut bloom_filter = CountingBloomFilter::new(100, 3);
    bloom_filter.add(&text("item1"));
    bloom_filter.add(&text("item2"));
    assert_eq!(bloom_filter.contains(&text("item1")), true);
    assert_eq!(bloom_filter.contains(&text("item2")), true);
    bloom_filter.remove(&text("item1"));
    assert_eq!(bloom_filter.contains(&text("item1")), false);
    assert_eq!(bloom_filter.contains(&text("item2")), true);
}

#[test]
fn test_counting_bytes_and_indices() {
    let filter = CountingBloomFilter::new(100, 3);
    // the indexer is the seeded 32-bit murmur3 hash reduced modulo the size
    assert_eq!(filter.get_index(b"item1", 0), 1238979355 % 100);
    assert_eq!(filter.get_index(b"item1", 1), 2148476354 % 100);
    assert_eq!(filter.get_index(b"item1", 2), 818635064 % 100);
    // a wider modulus shows more of the hash value itself
    let wide = CountingBloomFilter::new(1_000_000, 1);
    assert_eq!(wide.get_index(b"test", 0), 3127628307u64 as usize % 1_000_000);
    assert_eq!(wide.get_index(b"", 0), 0);

    let mut filter = CountingBloomFilter::new(100, 3);
    assert!(!filter.contains_bytes(b"item1"));
    filter.add_bytes(b"item1");
    assert!(filter.contains_bytes(b"item1"));
    filter.remove_bytes(b"item1");
    assert!(!filter.contains_bytes(b"item1"));
}

#[test]
fn test_remove_keeps_shared_slots() {
    // two copies of one item share all slots: removing one copy must not
    // drive the shared counters to zero
    let mut filter = CountingBloomFilter::new(100, 3);
    filter.add(&text("item1"));
    filter.add(&text("item1"));
    filter.remove(&text("item1"));
    assert_eq!(filter.contains(&text("item1")), true);
    filter.remove(&text("item1"));
    assert_eq!(filter.contains(&text("item1")), false);
}
