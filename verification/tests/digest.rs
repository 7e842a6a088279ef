use crowd_core::digest::{hash_hex, source_hash};

#[test]
fn source_hash_is_the_blake3_digest() {
    let hash = source_hash(b"abc");
    assert_eq!(
        hash_hex(&hash),
        "6437b3ac38465133ffb63b75273a8db548c558465d79db03fd359c6cd5bd9d85"
    );
    assert_eq!(
        hash_hex(&source_hash(b"")),
        "af1349b9f5f9a1a6a0404dea36dcc9499bcb25c9adc112b7cc9a93cae41f3262"
    );
}

#[test]
fn source_hash_depends_on_every_byte() {
    assert_ne!(source_hash(b"{\"a\":1}"), source_hash(b"{\"a\":2}"));
    assert_eq!(source_hash(b"same"), source_hash(b"same"));
}

#[test]
fn hash_hex_writes_two_lowercase_digits_per_byte() {
    let mut bytes = [0u8; 32];
    bytes[0] = 0xab;
    bytes[1] = 0x05;
    bytes[31] = 0xf0;
    let text = hash_hex(&bytes);
    assert_eq!(text.len(), 64);
    assert!(text.starts_with("ab05"));
    assert!(text.ends_with("f0"));
    assert!(text.chars().all(|c| c.is_ascii_hexdigit() && !c.is_ascii_uppercase()));
}
