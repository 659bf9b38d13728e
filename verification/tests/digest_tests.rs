use flippy::digest::verify_sha256;
use sha2::Digest;

#[test]
fn accepts_the_matching_digest() {
    let data = b"firmware image bytes".to_vec();
    let expected = hex::encode(sha2::Sha256::digest(&data));
    assert!(verify_sha256(&data, &expected.into_bytes()));
}

#[test]
fn rejects_a_mismatched_digest() {
    let data = b"firmware image bytes".to_vec();
    let other = hex::encode(sha2::Sha256::digest(b"different"));
    assert!(!verify_sha256(&data, &other.into_bytes()));
}

#[test]
fn empty_input_has_the_well_known_digest() {
    let expected = b"e3b0c44298fc1c149afbf4c8996fb92427ae41e4649b934ca495991b7852b855".to_vec();
    assert!(verify_sha256(&Vec::new(), &expected));
}
