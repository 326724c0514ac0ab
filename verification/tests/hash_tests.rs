use entangle::hashing::{fingerprint, to_hex};
use sha2::Digest;

#[test]
fn fingerprint_of_hi_is_the_known_digest() {
    assert_eq!(
        fingerprint(b"hi"),
        "8f434346648f6b96df89dda901c5176b10a6d83961dd3c1ac88b59b2dc327aa4"
    );
}

#[test]
fn fingerprint_of_empty_input_is_the_known_digest() {
    assert_eq!(
        fingerprint(b""),
        "e3b0c44298fc1c149afbf4c8996fb92427ae41e4649b934ca495991b7852b855"
    );
}

#[test]
fn fingerprint_matches_an_independent_digest() {
    let data = b"three-way reconciliation";
    let digest = sha2::Sha256::digest(data);
    assert_eq!(fingerprint(data), format!("{:x}", digest));
}

#[test]
fn fingerprint_depends_on_the_bytes_alone() {
    assert_eq!(fingerprint(b"same bytes"), fingerprint(b"same bytes"));
    assert_ne!(fingerprint(b"same bytes"), fingerprint(b"same bytes!"));
    assert_eq!(fingerprint(b"x").len(), 64);
}

#[test]
fn to_hex_encodes_two_digits_per_byte() {
    assert_eq!(to_hex(&[]), "");
    assert_eq!(to_hex(&[0x00]), "00");
    assert_eq!(to_hex(&[0xbe, 0xef]), "beef");
    assert_eq!(to_hex(&[0x01, 0x23, 0x45, 0x67, 0x89, 0xab, 0xcd, 0xef]), "0123456789abcdef");
}
