use flippy::oracle::{classify_file, content_digest, hex_decode, hex_lower, Md5Cache};
use flippy::tree::{DirEntry, RemoteTree};

#[test]
fn hex_encoding_is_lowercase_and_exact() {
    let bytes: Vec<u8> = vec![0x00, 0xff, 0x10, 0xab];
    assert_eq!(hex_lower(&bytes), b"00ff10ab".to_vec());
    assert_eq!(hex_lower(&Vec::new()), Vec::<u8>::new());
}

#[test]
fn hex_decode_round_trips() {
    let bytes: Vec<u8> = (0..=255u8).collect();
    let text = hex_lower(&bytes);
    assert_eq!(hex_decode(&text), Some(bytes));
}

#[test]
fn hex_decode_rejects_bad_input() {
    assert!(hex_decode(&b"abc".to_vec()).is_none(), "odd length");
    assert!(hex_decode(&b"zz".to_vec()).is_none(), "non-hex digit");
    assert!(hex_decode(&b"AB".to_vec()).is_none(), "uppercase is not produced here");
    assert_eq!(hex_decode(&Vec::new()), Some(Vec::new()));
}

#[test]
fn digest_matches_md5_crate() {
    let data = b"HELLO FLIPPER\n\0\0\0".to_vec();
    let ours = content_digest(&data);
    let theirs = md5::compute(&data).0.to_vec();
    assert_eq!(ours, theirs);
    // the well-known empty digest, fixed for all time
    assert_eq!(
        hex_lower(&content_digest(&Vec::new())),
        b"d41d8cd98f00b204e9800998ecf8427e".to_vec()
    );
}

#[test]
fn equal_size_and_content_is_not_different() {
    let data = b"same bytes".to_vec();
    let d1 = content_digest(&data);
    let d2 = content_digest(&data.clone());
    assert!(!classify_file(Some(10), Some(10), &d1, &d2));
}

#[test]
fn size_mismatch_is_different_without_hashes() {
    let a = content_digest(&b"a".to_vec());
    let b = content_digest(&b"a".to_vec());
    assert!(classify_file(Some(1), Some(2), &a, &b));
    assert!(classify_file(Some(1), None, &a, &b), "a remote directory never equals a file");
}

#[test]
fn content_mismatch_at_equal_size_is_different() {
    let a = content_digest(&vec![0u8; 128]);
    let b = content_digest(&vec![1u8; 128]);
    assert!(classify_file(Some(128), Some(128), &a, &b));
}

#[test]
fn batched_digests_classify_like_direct_ones() {
    // one listing call provides both siblings' digests; classification per
    // file equals what the per-file digests give
    let mut remote = RemoteTree::new();
    let entries = vec![
        DirEntry::File("x".to_string(), 3),
        DirEntry::File("y".to_string(), 3),
    ];
    remote.apply_listing(0, &entries, &Vec::new());
    let x = remote.find_child_by_name(0, &"x".to_string()).unwrap();
    let y = remote.find_child_by_name(0, &"y".to_string()).unwrap();

    let dx = content_digest(&b"xxx".to_vec());
    let dy = content_digest(&b"yyy".to_vec());
    let mut cache = Md5Cache::new(remote.nodes.len());
    let listing = vec![("x".to_string(), dx.clone()), ("y".to_string(), dy.clone())];
    cache.fill(&remote, 0, &listing);

    let cached_x = cache.get(x).expect("x digest cached").clone();
    let cached_y = cache.get(y).expect("y digest cached").clone();
    assert_eq!(
        classify_file(Some(3), Some(3), &content_digest(&b"xxx".to_vec()), &cached_x),
        classify_file(Some(3), Some(3), &content_digest(&b"xxx".to_vec()), &dx)
    );
    assert!(!classify_file(Some(3), Some(3), &content_digest(&b"xxx".to_vec()), &cached_x));
    assert!(classify_file(Some(3), Some(3), &content_digest(&b"xxx".to_vec()), &cached_y));
}
