use flippy::ids::{uuid_for, uuid_hyphenated};
use flippy::upload::store_rel_path;

#[test]
fn uuid_matches_the_uuid_crate() {
    let url = b"https://github.com/UberGuidoZ/Flipper.git".to_vec();
    let ours = uuid_for(&url);
    let theirs = uuid::Uuid::new_v5(&uuid::Uuid::NAMESPACE_URL, &url);
    assert_eq!(ours.as_slice(), theirs.as_bytes());
}

#[test]
fn uuid_is_deterministic_and_url_sensitive() {
    let a = uuid_for(&b"https://example.com/a".to_vec());
    let b = uuid_for(&b"https://example.com/a".to_vec());
    let c = uuid_for(&b"https://example.com/b".to_vec());
    assert_eq!(a, b);
    assert_ne!(a, c);
    assert_eq!(a.len(), 16);
    assert_ne!(a.as_slice(), b"https://example.com/a".as_slice());
}

#[test]
fn hyphenated_matches_the_uuid_crate() {
    let url = b"https://example.com/repo".to_vec();
    let bytes = uuid_for(&url);
    let ours = uuid_hyphenated(&bytes);
    let theirs = uuid::Uuid::new_v5(&uuid::Uuid::NAMESPACE_URL, &url).to_string();
    assert_eq!(ours, theirs);
}

#[test]
fn hyphenated_shape() {
    let bytes: Vec<u8> = (0u8..16).collect();
    let text = uuid_hyphenated(&bytes);
    assert_eq!(text, "00010203-0405-0607-0809-0a0b0c0d0e0f");
}

#[test]
fn store_path_prefixes_store() {
    let bytes: Vec<u8> = (0u8..16).collect();
    assert_eq!(
        store_rel_path(&bytes),
        "store/00010203-0405-0607-0809-0a0b0c0d0e0f"
    );
}
