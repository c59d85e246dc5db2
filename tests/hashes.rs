use nuts_node::hash::{to_fixed, HashError};

#[test]
fn sha256_of_empty_input() {
    let h = nuts_node::hash::Hash::new(b"");
    assert_eq!(h.to_hex(), "e3b0c44298fc1c149afbf4c8996fb92427ae41e4649b934ca495991b7852b855");
}

#[test]
fn sha256_of_abc() {
    let h = nuts_node::hash::Hash::new(b"abc");
    assert_eq!(h.to_hex(), "ba7816bf8f01cfea414140de5dae2223b00361a396177a9cb410ff61f20015ad");
}

#[test]
fn to_fixed_requires_32_bytes() {
    assert_eq!(to_fixed(vec![9u8; 32]).unwrap(), [9u8; 32]);
    assert_eq!(to_fixed(vec![9u8; 31]), Err(HashError::InvalidLength));
    assert_eq!(to_fixed(vec![]), Err(HashError::InvalidLength));
}

#[test]
fn parse_raw_bytes() {
    let mut bytes = vec![0u8; 32];
    bytes[0] = 0xab;
    bytes[31] = 0x01;
    let h = nuts_node::hash::Hash::parse(bytes.clone()).unwrap();
    assert_eq!(h.as_bytes(), bytes.as_slice());
    assert_eq!(h.to_hex(), format!("ab{}01", "00".repeat(30)));
    assert!(matches!(nuts_node::hash::Hash::parse(vec![1, 2, 3]), Err(HashError::InvalidLength)));
}

#[test]
fn parse_hex_round_trip() {
    let text = "000102030405060708090a0b0c0d0e0f101112131415161718191a1b1c1d1e1f";
    let h = nuts_node::hash::Hash::parse_hex(text.as_bytes()).unwrap();
    assert_eq!(h.as_bytes()[10], 10);
    assert_eq!(h.to_hex(), text);
    assert!(matches!(
        nuts_node::hash::Hash::parse_hex(text.to_uppercase().as_bytes()),
        Err(HashError::InvalidHex)
    ));
}

#[test]
fn parse_hex_errors() {
    assert!(matches!(nuts_node::hash::Hash::parse_hex(b"abc"), Err(HashError::InvalidHex)));
    assert!(matches!(nuts_node::hash::Hash::parse_hex(b"zz"), Err(HashError::InvalidHex)));
    assert!(matches!(nuts_node::hash::Hash::parse_hex(b"abcd"), Err(HashError::InvalidLength)));
}

#[test]
fn equality_is_by_bytes() {
    let a = nuts_node::hash::Hash::new(b"a");
    let b = nuts_node::hash::Hash::new(b"b");
    assert!(a == a.duplicate());
    assert!(a != b);
    assert!(a.equals(&a.duplicate()));
    assert!(!a.equals(&b));
}
