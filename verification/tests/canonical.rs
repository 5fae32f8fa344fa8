use bloomlib::canonical::{canonical_bytes, Value};

#[test]
fn test_integral_bit_pattern() {
    // fixed-width two's complement, little-endian — never a textual form
    assert_eq!(canonical_bytes(&Value::Int(1)), vec![1, 0, 0, 0, 0, 0, 0, 0]);
    assert_eq!(canonical_bytes(&Value::Int(0)), vec![0; 8]);
    assert_eq!(canonical_bytes(&Value::Int(-1)), vec![255; 8]);
    assert_eq!(
        canonical_bytes(&Value::Int(-2)),
        vec![254, 255, 255, 255, 255, 255, 255, 255]
    );
    assert_eq!(
        canonical_bytes(&Value::Int(i64::MIN)),
        vec![0, 0, 0, 0, 0, 0, 0, 128]
    );
    assert_eq!(
        canonical_bytes(&Value::Int(i64::MAX)),
        vec![255, 255, 255, 255, 255, 255, 255, 127]
    );
}

#[test]
fn test_bool_and_float_patterns() {
    assert_eq!(canonical_bytes(&Value::Bool(false)), vec![0]);
    assert_eq!(canonical_bytes(&Value::Bool(true)), vec![1]);
    // the IEEE-754 bit pattern of the value, not a decimal rendering
    let bits = 1.5f64.to_bits();
    assert_eq!(
        canonical_bytes(&Value::FloatBits(bits)),
        bits.to_le_bytes().to_vec()
    );
}

#[test]
fn test_text_and_temporal_renderings() {
    assert_eq!(canonical_bytes(&Value::Text("ab".to_string())), vec![97, 98]);
    assert_eq!(canonical_bytes(&Value::Text(String::new())), Vec::<u8>::new());
    assert_eq!(
        canonical_bytes(&Value::Temporal("2020-01-02".to_string())),
        b"2020-01-02".to_vec()
    );
    // non-ASCII text canonicalizes to its UTF-8 bytes
    assert_eq!(
        canonical_bytes(&Value::Text("\u{e9}".to_string())),
        vec![0xc3, 0xa9]
    );
}

#[test]
fn test_opaque_hash_bytes() {
    assert_eq!(
        canonical_bytes(&Value::Opaque(-1)),
        vec![255, 255, 255, 255, 255, 255, 255, 255]
    );
    assert_eq!(canonical_bytes(&Value::Opaque(258)), vec![2, 1, 0, 0, 0, 0, 0, 0]);
}

#[test]
fn test_representation_drift_avoided() {
    // the integer 1 and the text "1" canonicalize differently
    assert_ne!(
        canonical_bytes(&Value::Int(1)),
        canonical_bytes(&Value::Text("1".to_string()))
    );
    // equal values canonicalize identically
    assert_eq!(
        canonical_bytes(&Value::Text("same".to_string())),
        canonical_bytes(&Value::Text("same".to_string()))
    );
}
