use tileshare::identity::generate_id_from_bytes;

#[test]
fn identical_bytes_identical_id() {
    let a = generate_id_from_bytes(b"some uploaded bytes");
    let b = generate_id_from_bytes(b"some uploaded bytes");
    assert_eq!(a, b);
}

#[test]
fn differing_bytes_differing_id() {
    let a = generate_id_from_bytes(b"some uploaded bytes");
    let b = generate_id_from_bytes(b"some uploaded byteZ");
    assert_ne!(a, b);
}

#[test]
fn id_is_64_lowercase_hex_chars() {
    let id = generate_id_from_bytes(&[0, 1, 2, 3]);
    assert_eq!(id.len(), 64);
    assert!(id.chars().all(|c| c.is_ascii_hexdigit() && !c.is_ascii_uppercase()));
}

#[test]
fn known_digest_of_empty_input() {
    let id = generate_id_from_bytes(&[]);
    assert_eq!(id, "af1349b9f5f9a1a6a0404dea36dcc9499bcb25c9adc112b7cc9a93cae41f3262");
}
