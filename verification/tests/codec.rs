use bloomlib::bloom_filter::BloomFilterRS;
use bloomlib::canonical::Value;
use bloomlib::counting_bloom_filter::CountingBloomFilter;
use bloomlib::FilterError;

fn text(s: &str) -> Value {
    Value::Text(s.to_string())
}

#[test]
fn test_round_trip_standard() {
    let mut filter = BloomFilterRS::new(100, 1, 100).unwrap();
    filter.add(&text("alpha"));
    filter.add(&Value::Int(7));
    filter.add_bytes(b"raw bytes");

    let snapshot = filter.serialize();
    let restored = BloomFilterRS::deserialize(&snapshot).unwrap();

    // observationally equivalent: diagnostics and queries agree
    assert_eq!(restored.get_bit_count(), filter.get_bit_count());
    assert_eq!(restored.get_hash_count(), filter.get_hash_count());
    assert_eq!(
        restored.estimate_false_positive_rate(),
        filter.estimate_false_positive_rate()
    );
    assert!(restored.contains(&text("alpha")));
    assert!(restored.contains(&Value::Int(7)));
    assert!(restored.contains_bytes(b"raw bytes"));
    assert!(!restored.contains(&text("beta")));
    // and a second serialization is identical
    assert_eq!(restored.serialize(), snapshot);
}

#[test]
fn test_round_trip_counting() {
    let mut filter = CountingBloomFilter::new(50, 3);
    filter.add(&text("alpha"));
    filter.add(&text("gamma"));

    let snapshot = filter.serialize();
    let mut restored = CountingBloomFilter::deserialize(&snapshot).unwrap();

    assert_eq!(restored.get_size(), filter.get_size());
    assert_eq!(restored.get_hash_count(), filter.get_hash_count());
    assert!(restored.contains(&text("alpha")));
    assert!(restored.contains(&text("gamma")));
    assert!(!restored.contains(&text("beta")));
    // removal still works on the restored filter
    restored.remove(&text("alpha"));
    assert!(!restored.contains(&text("alpha")));
}

#[test]
fn test_insert_idempotent_snapshot() {
    // inserting the same value twice leaves the identical full state
    let mut once = BloomFilterRS::new(100, 1, 100).unwrap();
    once.add(&text("alpha"));
    let mut twice = BloomFilterRS::new(100, 1, 100).unwrap();
    twice.add(&text("alpha"));
    twice.add(&text("alpha"));
    assert_eq!(once.serialize(), twice.serialize());
}

#[test]
fn test_deserialize_rejects_malformed() {
    // too short to hold the three header fields
    assert!(matches!(
        BloomFilterRS::deserialize(&[]),
        Err(FilterError::DeserializationError)
    ));
    assert!(matches!(
        BloomFilterRS::deserialize(&[1, 2, 3]),
        Err(FilterError::DeserializationError)
    ));

    let filter = BloomFilterRS::new(100, 1, 100).unwrap();
    let good = filter.serialize();

    // truncated payload: length inconsistent with the declared bit count
    let truncated = &good[..good.len() - 1];
    assert!(matches!(
        BloomFilterRS::deserialize(truncated),
        Err(FilterError::DeserializationError)
    ));

    // a zero hash count is malformed
    let mut zero_k = good.clone();
    for b in zero_k.iter_mut().take(8) {
        *b = 0;
    }
    assert!(matches!(
        BloomFilterRS::deserialize(&zero_k),
        Err(FilterError::DeserializationError)
    ));

    // a stray bit beyond the declared bit count is malformed
    let mut stray = good.clone();
    let last = stray.len() - 1;
    // 959 bits end 7 bits into the last byte: the top bit is unused
    stray[last] |= 0x80;
    assert!(matches!(
        BloomFilterRS::deserialize(&stray),
        Err(FilterError::DeserializationError)
    ));

    // the untouched snapshot still parses
    assert!(BloomFilterRS::deserialize(&good).is_ok());
}

#[test]
fn test_deserialize_counting_rejects_malformed() {
    assert!(matches!(
        CountingBloomFilter::deserialize(&[]),
        Err(FilterError::DeserializationError)
    ));

    let filter = CountingBloomFilter::new(10, 3);
    let good = filter.serialize();

    // a torn counter: the body no longer falls into whole four-byte slots
    let torn = &good[..good.len() - 2];
    assert!(matches!(
        CountingBloomFilter::deserialize(torn),
        Err(FilterError::DeserializationError)
    ));

    // a zero hash count is malformed
    let mut zero_k = good.clone();
    for b in zero_k.iter_mut().take(8) {
        *b = 0;
    }
    assert!(matches!(
        CountingBloomFilter::deserialize(&zero_k),
        Err(FilterError::DeserializationError)
    ));

    assert!(CountingBloomFilter::deserialize(&good).is_ok());
}

#[test]
fn test_snapshot_restores_without_parameters() {
    // the restored bit count comes from the snapshot, not from (n, p):
    // a filter whose parameters are unknown at restore time still works
    let mut filter = BloomFilterRS::new(10000, 5, 100).unwrap();
    for i in 0..100i64 {
        filter.add(&Value::Int(i));
    }
    let snapshot = filter.serialize();
    let restored = BloomFilterRS::deserialize(&snapshot).unwrap();
    assert_eq!(restored.get_bit_count(), 62353);
    assert_eq!(restored.get_hash_count(), 5);
    for i in 0..100i64 {
        assert!(restored.contains(&Value::Int(i)));
    }
}
