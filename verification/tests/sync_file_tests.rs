use flippy::sync_file::{Repo, SyncFile, SyncFileError};

fn sample(count: usize) -> SyncFile {
    let mut repositories = Vec::new();
    for i in 0..count {
        let uuid: Vec<u8> = (0..16).map(|b| (b as u8).wrapping_add(i as u8)).collect();
        let hash: Vec<u8> = (0..20).map(|b| (b as u8).wrapping_mul(3).wrapping_add(i as u8)).collect();
        repositories.push(Repo { uuid, hash });
    }
    SyncFile { repositories }
}

#[test]
fn serialize_layout_is_byte_exact() {
    let f = sample(1);
    let bytes = f.serialize();
    assert_eq!(bytes.len(), 69);
    assert_eq!(bytes[0], 1);
    assert_eq!(&bytes[1..33], b"FLIPPY SYNC FILE: DO NOT MODIFY.");
    assert_eq!(&bytes[33..49], f.repositories[0].uuid.as_slice());
    assert_eq!(&bytes[49..69], f.repositories[0].hash.as_slice());
}

#[test]
fn round_trip_many_records() {
    for count in [0usize, 1, 2, 7, 100] {
        let f = sample(count);
        let bytes = f.serialize();
        let back = SyncFile::deserialize(&bytes).expect("round trip must deserialize");
        assert_eq!(back, f);
    }
}

#[test]
fn empty_file_round_trips() {
    let f = SyncFile { repositories: Vec::new() };
    let bytes = f.serialize();
    assert_eq!(bytes.len(), 33);
    assert_eq!(SyncFile::deserialize(&bytes).unwrap(), f);
}

#[test]
fn flipping_any_header_byte_rejects() {
    let f = sample(3);
    let good = f.serialize();
    for i in 0..33 {
        let mut bad = good.clone();
        bad[i] ^= 0x5a;
        assert!(
            SyncFile::deserialize(&bad).is_err(),
            "byte {} flipped must reject",
            i
        );
    }
}

#[test]
fn truncating_off_record_alignment_rejects() {
    let f = sample(2);
    let good = f.serialize();
    for cut in 1..36 {
        let bad: Vec<u8> = good[..good.len() - cut].to_vec();
        if (bad.len() - 33) % 36 != 0 {
            assert_eq!(
                SyncFile::deserialize(&bad),
                Err(SyncFileError::BadLength)
            );
        }
    }
}

#[test]
fn short_data_rejects() {
    let bad: Vec<u8> = vec![1, 2, 3];
    assert_eq!(SyncFile::deserialize(&bad), Err(SyncFileError::TooShort));
}

#[test]
fn wrong_version_rejects() {
    let f = sample(1);
    let mut bad = f.serialize();
    bad[0] = 2;
    assert_eq!(SyncFile::deserialize(&bad), Err(SyncFileError::BadVersion));
}

#[test]
fn wrong_notice_rejects() {
    let f = sample(1);
    let mut bad = f.serialize();
    bad[5] = b'X';
    assert_eq!(SyncFile::deserialize(&bad), Err(SyncFileError::BadNotice));
}

#[test]
fn find_hash_returns_first_match() {
    let f = sample(3);
    let wanted = f.repositories[1].uuid.clone();
    let got = f.find_hash(&wanted).expect("present uuid must be found");
    assert_eq!(got, &f.repositories[1].hash);
    let absent: Vec<u8> = vec![0xff; 16];
    assert!(f.find_hash(&absent).is_none());
}
