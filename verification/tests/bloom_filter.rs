use bloomlib::bloom_filter::BloomFilterRS;
use bloomlib::canonical::Value;

fn text(s: &str) -> Value {
    Value::Text(s.to_string())
}

/// The canonical textual rendering of the structured test item
/// `{ key: 1, value: "test" }`.
fn test_item() -> Value {
    text("{\"key\":1,\"value\":\"test\"}")
}

#[test]
fn test_add_and_contains() {
    let mut bf = BloomFilterRS::new(10, 1, 100).unwrap();

    bf.add(&text("test"));
    bf.add(&Value::Int(1));

    assert!(bf.get_bit_count() > 0, "Bloom filter memory should be >0 bits");
    assert!(bf.get_bit_count() > 0, "Bloom filter memory should be >0 bits");
    assert!(bf.get_hash_count() > 0, "Bloom filter hashes count should be >0 ");
    assert!(bf.get_hash_count() > 0, "Bloom filter hashes count should be >0 ");

    assert!(bf.contains(&text("test")), "Item 'test' should be in the BloomFilter");
    assert!(bf.contains(&Value::Int(1)), "Item 'test' should be in the BloomFilter");
    // not in
    assert!(!bf.contains(&text("bar")), "Item 'bar' should not be in the BloomFilter");
    assert!(!bf.contains(&text("nee")), "Item 'nee' should not be in the BloomFilter");
}

#[test]
fn test_add_and_get_objects() {
    let mut bloom_filter = BloomFilterRS::new(100, 1, 100).unwrap();
    let item = test_item();

    // Item should not be in the filter initially
    assert!(!bloom_filter.contains(&item), "Item should not be in the filter yet");

    bloom_filter.add(&item);

    // Item should be in the filter after adding
    assert!(bloom_filter.contains(&item), "Item should be in the filter after adding");
    assert!(!bloom_filter.contains(&text("hello")), "Item should be in the filter after adding");
}

#[test]
fn test_add_multiple_items() {
    let mut bf = BloomFilterRS::new(3, 1, 100).unwrap();

    bf.add(&text("een"));
    bf.add(&text("twee"));
    bf.add(&text("drie"));

    println!("bitsize: {}", bf.get_bit_count());
    println!("n hashes: {}", bf.get_hash_count());

    assert!(bf.contains(&text("een")), "Item 'een' should be in the BloomFilter");
    assert!(bf.contains(&text("twee")), "twee 'twee' should be in the BloomFilter");
    // not in
    assert!(!bf.contains(&text("nope")), "Item 'nope' should not be in the BloomFilter");
    assert!(!bf.contains(&text("nein")), "Item 'nein' should not be in the BloomFilter");
}

#[test]
fn test_insert_and_contains() {
    let mut bf = BloomFilterRS::new(3, 1, 100).unwrap();

    bf.add(&text("test"));
    bf.add(&Value::Int(1));

    println!("bitsize: {}", bf.get_bit_count());
    println!("n hashes: {}", bf.get_hash_count());

    assert!(bf.contains(&text("test")), "Item 'test' should be in the BloomFilter");
    assert!(bf.contains(&Value::Int(1)), "Item 'test' should be in the BloomFilter");
    // not in
    assert!(!bf.contains(&text("bar")), "Item 'bar' should not be in the BloomFilter");
    assert!(!bf.contains(&text("nee")), "Item 'nee' should not be in the BloomFilter");
}

#[test]
fn test_clear_filter() {
    let mut bloom_filter = BloomFilterRS::new(100, 1, 100).unwrap();
    let item = test_item();
    assert!(!bloom_filter.contains(&item), "Item should not be in the filter yet");
    bloom_filter.add(&item);
    assert!(bloom_filter.contains(&item), "Item should be in the filter after adding");
    bloom_filter.clear();
    assert!(!bloom_filter.contains(&item), "Item shouldnt be in filter since it's cleared");
}

#[test]
fn test_add_and_get_bytes_directly() {
    let mut bloom_filter = BloomFilterRS::new(100, 1, 100).unwrap();

    // Generate a random byte array
    let some_bytes: Vec<u8> = vec![12, 48, 94, 127, 255];

    // Ensure the bytes are not in the filter initially
    assert!(!bloom_filter.contains_bytes(&some_bytes), "Bytes should not be in the filter yet");

    bloom_filter.add_bytes(&some_bytes);

    // Now the bytes should be in the filter
    assert!(bloom_filter.contains_bytes(&some_bytes), "Bytes should be in the filter after adding");
}

#[test]
fn test_false_positive_rate() {
    let n: usize = 10_000; // Number of items to insert
    // Desired false positive probability: 5 / 100
    let allowed_perc_deviation = 0.10;

    let mut bloom_filter = BloomFilterRS::new(n, 5, 100).unwrap();

    println!("get_number_of_bits {}", bloom_filter.get_bit_count());
    println!("get_number_of_hashes {}", bloom_filter.get_hash_count());
    println!(
        "estimate_false_positive_rate {}",
        bloom_filter.estimate_false_positive_rate() as f64 / 1e9
    );

    // Insert `n` items into the filter
    for i in 0..n {
        bloom_filter.add(&Value::Int(i as i64));
    }

    // Check `n` different items and count the false positives
    let fp_count_observed = (n..n * 2)
        .filter(|&i| bloom_filter.contains(&Value::Int(i as i64)))
        .count();
    let fp_count_expected = (n as f64 * 0.05) as usize;
    let fp_count_deviation = (fp_count_expected as i64 - fp_count_observed as i64).abs();
    let allowed_fp_count_deviation = allowed_perc_deviation * fp_count_expected as f64;
    println!("observed {}", fp_count_observed);
    assert!(
        fp_count_deviation as u32 <= allowed_fp_count_deviation as u32,
        "Too many false positives: {}, expected at most {}",
        fp_count_observed,
        fp_count_expected
    );
}

#[test]
fn test_can_estimate_false_positive_rate() {
    let n: usize = 1000; // Number of items to insert
    let p = 0.01; // Desired false positive probability: 1 / 100
    let bloom_filter = BloomFilterRS::new(n, 1, 100).unwrap();
    let estimate = bloom_filter.estimate_false_positive_rate() as f64 / 1e9;
    let estimate_deviation = (p - estimate).abs();

    assert!(estimate_deviation != 0.0, "Estimated false positive rate cannot be 0");
    assert!(estimate_deviation < p / 10.0, "Estimated false positive rate is too large");
}
