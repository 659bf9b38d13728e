//! The per-device sync-state file: a byte-exact record of which commit of
//! each repository is materialized on the device.
//!
//! Layout, little-endian, byte-exact: one version byte, a 32-byte ASCII
//! notice, then one 36-byte record per repository (16 UUID bytes followed
//! by a 20-byte commit object id). Deserialization rejects any mismatch in
//! version, notice, or record-region length.

use vstd::prelude::*;

verus! {

/// On-device location of the sync-state file.
pub const SYNC_FILE_PATH: &'static str = "/ext/.flippy_do_not_remove";

/// Format version written and accepted by this codec.
pub const SYNC_VERSION: u8 = 1;

/// Byte length of the notice that follows the version byte.
pub const NOTICE_LENGTH: usize = 32;

/// Byte length of one repository record: 16 UUID bytes + 20 commit bytes.
pub const REPO_RECORD_LENGTH: usize = 36;

/// The fixed ASCII notice "FLIPPY SYNC FILE: DO NOT MODIFY." as bytes.
pub open spec fn spec_notice() -> Seq<u8> {
    seq![
        70u8, 76u8, 73u8, 80u8, 80u8, 89u8, 32u8, 83u8, 89u8, 78u8, 67u8, 32u8, 70u8, 73u8, 76u8,
        69u8, 58u8, 32u8, 68u8, 79u8, 32u8, 78u8, 79u8, 84u8, 32u8, 77u8, 79u8, 68u8, 73u8, 70u8,
        89u8, 46u8,
    ]
}

/// Exec copy of the notice bytes.
pub fn notice_bytes() -> (r: Vec<u8>)
    ensures
        r@ == spec_notice(),
{
    let r: Vec<u8> = vec![
        70u8, 76u8, 73u8, 80u8, 80u8, 89u8, 32u8, 83u8, 89u8, 78u8, 67u8, 32u8, 70u8, 73u8, 76u8,
        69u8, 58u8, 32u8, 68u8, 79u8, 32u8, 78u8, 79u8, 84u8, 32u8, 77u8, 79u8, 68u8, 73u8, 70u8,
        89u8, 46u8,
    ];
    proof {
        assert(r@ =~= spec_notice());
    }
    r
}

/// One record of the sync-state file: a repository identity and the commit
/// most recently known to be materialized on the device for it.
#[derive(Debug, Clone, PartialEq, Eq)]
pub struct Repo {
    /// The repository's UUIDv5, as its 16 raw bytes.
    pub uuid: Vec<u8>,
    /// The 20-byte git commit object id last synced.
    pub hash: Vec<u8>,
}

impl Repo {
    /// A record is well formed when both fields have their fixed lengths.
    pub open spec fn wf(&self) -> bool {
        self.uuid@.len() == 16 && self.hash@.len() == 20
    }

    /// The 36 bytes of this record as written to the device.
    pub open spec fn spec_bytes(&self) -> Seq<u8> {
        self.uuid@ + self.hash@
    }
}

/// Why a byte string was rejected as a sync-state file.
#[derive(Debug, Clone, Copy, PartialEq, Eq)]
pub enum SyncFileError {
    /// Shorter than version byte plus notice.
    TooShort,
    /// The version byte is not `SYNC_VERSION`.
    BadVersion,
    /// The 32 bytes after the version differ from the notice.
    BadNotice,
    /// The record region is not a multiple of 36 bytes.
    BadLength,
}

/// The decoded sync-state file.
#[derive(Debug, Clone, PartialEq, Eq)]
pub struct SyncFile {
    pub repositories: Vec<Repo>,
}

/// Bytes of a record sequence, in order.
pub open spec fn spec_repos_bytes(rs: Seq<Repo>) -> Seq<u8>
    decreases rs.len(),
{
    if rs.len() == 0 {
        Seq::<u8>::empty()
    } else {
        spec_repos_bytes(rs.drop_last()) + rs.last().spec_bytes()
    }
}

/// A byte string is accepted by deserialization exactly when this holds.
pub open spec fn valid_sync_bytes(data: Seq<u8>) -> bool {
    &&& data.len() >= 33
    &&& data[0] == SYNC_VERSION
    &&& data.subrange(1, 33) == spec_notice()
    &&& (data.len() - 33) % 36 == 0
}

/// The record that deserialization reads from record slot `i` of `data`.
pub open spec fn spec_record_at(data: Seq<u8>, i: int) -> (Seq<u8>, Seq<u8>) {
    (
        data.subrange(33 + 36 * i, 33 + 36 * i + 16),
        data.subrange(33 + 36 * i + 16, 33 + 36 * i + 36),
    )
}

impl SyncFile {
    /// Every record has its fixed field lengths.
    pub open spec fn wf(&self) -> bool {
        forall|i: int| 0 <= i < self.repositories@.len() ==> (#[trigger] self.repositories@[i]).wf()
    }

    /// The exact bytes that `serialize` produces.
    pub open spec fn spec_serialize(&self) -> Seq<u8> {
        seq![SYNC_VERSION] + spec_notice() + spec_repos_bytes(self.repositories@)
    }

    /// Serializes the file into its on-device byte layout.
    pub fn serialize(&self) -> (r: Vec<u8>)
        requires
            self.wf(),
        ensures
            r@ == self.spec_serialize(),
    {
        let mut r: Vec<u8> = Vec::new();
        r.push(SYNC_VERSION);
        let notice = notice_bytes();
        r.extend_from_slice(notice.as_slice());
        proof {
            assert(r@ =~= seq![SYNC_VERSION] + spec_notice() + spec_repos_bytes(
                self.repositories@.take(0),
            ));
        }
        let n = self.repositories.len();
        let mut i: usize = 0;
        while i < n
            invariant
                n == self.repositories@.len(),
                i <= n,
                self.wf(),
                r@ == seq![SYNC_VERSION] + spec_notice() + spec_repos_bytes(
                    self.repositories@.take(i as int),
                ),
            decreases n - i,
        {
            let repo = &self.repositories[i];
            r.extend_from_slice(repo.uuid.as_slice());
            r.extend_from_slice(repo.hash.as_slice());
            proof {
                assert(self.repositories@.take(i + 1).drop_last() =~= self.repositories@.take(
                    i as int,
                ));
                assert(self.repositories@.take(i + 1).last() == self.repositories@[i as int]);
                assert(r@ =~= seq![SYNC_VERSION] + spec_notice() + spec_repos_bytes(
                    self.repositories@.take(i + 1),
                ));
            }
            i = i + 1;
        }
        proof {
            assert(self.repositories@.take(n as int) =~= self.repositories@);
        }
        r
    }

    /// Deserializes a byte string, accepting exactly the well-formed layout
    /// and recovering every record byte for byte.
    pub fn deserialize(data: &Vec<u8>) -> (r: Result<SyncFile, SyncFileError>)
        ensures
            r is Ok <==> valid_sync_bytes(data@),
            r matches Ok(f) ==> {
                &&& f.wf()
                &&& f.repositories@.len() == (data@.len() - 33) / 36
                &&& forall|i: int|
                    0 <= i < f.repositories@.len() ==> {
                        &&& (#[trigger] f.repositories@[i]).uuid@ == spec_record_at(data@, i).0
                        &&& f.repositories@[i].hash@ == spec_record_at(data@, i).1
                    }
            },
            r matches Err(e) ==> {
                &&& e == SyncFileError::TooShort <==> data@.len() < 33
                &&& e == SyncFileError::BadVersion <==> (data@.len() >= 33 && data@[0]
                    != SYNC_VERSION)
                &&& e == SyncFileError::BadNotice <==> (data@.len() >= 33 && data@[0]
                    == SYNC_VERSION && data@.subrange(1, 33) != spec_notice())
                &&& e == SyncFileError::BadLength <==> (data@.len() >= 33 && data@[0]
                    == SYNC_VERSION && data@.subrange(1, 33) == spec_notice() && (data@.len() - 33)
                    % 36 != 0)
            },
    {
        if data.len() < 33 {
            return Err(SyncFileError::TooShort);
        }
        if data[0] != SYNC_VERSION {
            return Err(SyncFileError::BadVersion);
        }
        let notice = notice_bytes();
        let mut k: usize = 0;
        while k < 32
            invariant
                k <= 32,
                data@.len() >= 33,
                data@[0] == SYNC_VERSION,
                notice@ == spec_notice(),
                forall|j: int| 0 <= j < k ==> data@[1 + j] == spec_notice()[j],
            decreases 32 - k,
        {
            if data[1 + k] != notice[k] {
                proof {
                    assert(data@.subrange(1, 33)[k as int] == data@[1 + k]);
                    assert(data@.subrange(1, 33) != spec_notice());
                }
                return Err(SyncFileError::BadNotice);
            }
            k = k + 1;
        }
        proof {
            assert(data@.subrange(1, 33) =~= spec_notice());
        }
        let dn = data.len();
        let record_len = dn - 33;
        if record_len % 36 != 0 {
            return Err(SyncFileError::BadLength);
        }
        let count = record_len / 36;
        proof {
            vstd::arithmetic::div_mod::lemma_fundamental_div_mod(record_len as int, 36);
        }
        let mut repositories: Vec<Repo> = Vec::new();
        let mut i: usize = 0;
        while i < count
            invariant
                dn == data@.len(),
                count == (data@.len() - 33) / 36,
                (data@.len() - 33) % 36 == 0,
                data@.len() - 33 == 36 * count,
                i <= count,
                repositories@.len() == i,
                forall|j: int|
                    0 <= j < i ==> {
                        &&& (#[trigger] repositories@[j]).uuid@ == spec_record_at(data@, j).0
                        &&& repositories@[j].hash@ == spec_record_at(data@, j).1
                        &&& repositories@[j].wf()
                    },
            decreases count - i,
        {
            proof {
                assert(33 + 36 * i + 36 <= data@.len());
            }
            let start = 33 + i * 36;
            let mut uuid: Vec<u8> = Vec::new();
            let mut b: usize = 0;
            while b < 16
                invariant
                    b <= 16,
                    start == 33 + 36 * i,
                    dn == data@.len(),
                    33 + 36 * i + 36 <= data@.len(),
                    uuid@.len() == b,
                    forall|j: int| 0 <= j < b ==> uuid@[j] == data@[33 + 36 * i + j],
                decreases 16 - b,
            {
                uuid.push(data[start + b]);
                b = b + 1;
            }
            let mut hash: Vec<u8> = Vec::new();
            let mut c: usize = 0;
            while c < 20
                invariant
                    c <= 20,
                    start == 33 + 36 * i,
                    dn == data@.len(),
                    33 + 36 * i + 36 <= data@.len(),
                    hash@.len() == c,
                    forall|j: int| 0 <= j < c ==> hash@[j] == data@[33 + 36 * i + 16 + j],
                decreases 20 - c,
            {
                hash.push(data[start + 16 + c]);
                c = c + 1;
            }
            proof {
                assert(uuid@ =~= spec_record_at(data@, i as int).0);
                assert(hash@ =~= spec_record_at(data@, i as int).1);
            }
            repositories.push(Repo { uuid, hash });
            i = i + 1;
        }
        Ok(SyncFile { repositories })
    }

    /// Returns the commit hash recorded for the given repository UUID bytes,
    /// if any; the first matching record wins.
    pub fn find_hash(&self, uuid: &Vec<u8>) -> (r: Option<&Vec<u8>>)
        ensures
            r is Some <==> exists|i: int|
                0 <= i < self.repositories@.len() && (#[trigger] self.repositories@[i]).uuid@
                    == uuid@,
            r matches Some(h) ==> exists|i: int|
                {
                    &&& 0 <= i < self.repositories@.len()
                    &&& (#[trigger] self.repositories@[i]).uuid@ == uuid@
                    &&& h@ == self.repositories@[i].hash@
                    &&& forall|j: int|
                        0 <= j < i ==> (#[trigger] self.repositories@[j]).uuid@ != uuid@
                },
    {
        let n = self.repositories.len();
        let mut i: usize = 0;
        while i < n
            invariant
                n == self.repositories@.len(),
                i <= n,
                forall|j: int| 0 <= j < i ==> (#[trigger] self.repositories@[j]).uuid@ != uuid@,
            decreases n - i,
        {
            if bytes_eq(&self.repositories[i].uuid, uuid) {
                return Some(&self.repositories[i].hash);
            }
            i = i + 1;
        }
        None
    }
}

/// A plain copy of a byte vector.
pub fn bytes_dup(a: &Vec<u8>) -> (r: Vec<u8>)
    ensures
        r@ == a@,
{
    let mut r: Vec<u8> = Vec::new();
    let n = a.len();
    let mut i: usize = 0;
    while i < n
        invariant
            n == a@.len(),
            i <= n,
            r@ =~= a@.subrange(0, i as int),
        decreases n - i,
    {
        r.push(a[i]);
        proof {
            assert(r@ =~= a@.subrange(0, i + 1));
        }
        i = i + 1;
    }
    proof {
        assert(a@.subrange(0, n as int) =~= a@);
    }
    r
}

/// Byte-vector equality, usable where derived `==` gives the verifier nothing.
pub fn bytes_eq(a: &Vec<u8>, b: &Vec<u8>) -> (r: bool)
    ensures
        r <==> a@ == b@,
{
    if a.len() != b.len() {
        proof {
            assert(a@ != b@);
        }
        return false;
    }
    let n = a.len();
    let mut i: usize = 0;
    while i < n
        invariant
            n == a@.len(),
            n == b@.len(),
            i <= n,
            forall|j: int| 0 <= j < i ==> a@[j] == b@[j],
        decreases n - i,
    {
        if a[i] != b[i] {
            return false;
        }
        i = i + 1;
    }
    proof {
        assert(a@ =~= b@);
    }
    true
}

/// The byte length of a record sequence is 36 bytes per record.
pub proof fn lemma_repos_bytes_len(rs: Seq<Repo>)
    requires
        forall|i: int| 0 <= i < rs.len() ==> (#[trigger] rs[i]).wf(),
    ensures
        spec_repos_bytes(rs).len() == 36 * rs.len(),
    decreases rs.len(),
{
    if rs.len() > 0 {
        lemma_repos_bytes_len(rs.drop_last());
    }
}

/// Record `i` of a serialized record sequence is record `i` of the sequence.
pub proof fn lemma_repos_bytes_index(rs: Seq<Repo>, i: int)
    requires
        forall|k: int| 0 <= k < rs.len() ==> (#[trigger] rs[k]).wf(),
        0 <= i < rs.len(),
    ensures
        spec_repos_bytes(rs).subrange(36 * i, 36 * i + 16) == rs[i].uuid@,
        spec_repos_bytes(rs).subrange(36 * i + 16, 36 * i + 36) == rs[i].hash@,
    decreases rs.len(),
{
    lemma_repos_bytes_len(rs);
    if i == rs.len() - 1 {
        lemma_repos_bytes_len(rs.drop_last());
        assert(spec_repos_bytes(rs).subrange(36 * i, 36 * i + 16) =~= rs[i].uuid@);
        assert(spec_repos_bytes(rs).subrange(36 * i + 16, 36 * i + 36) =~= rs[i].hash@);
    } else {
        lemma_repos_bytes_index(rs.drop_last(), i);
        lemma_repos_bytes_len(rs.drop_last());
        assert(spec_repos_bytes(rs).subrange(36 * i, 36 * i + 16) =~= spec_repos_bytes(
            rs.drop_last(),
        ).subrange(36 * i, 36 * i + 16));
        assert(spec_repos_bytes(rs).subrange(36 * i + 16, 36 * i + 36) =~= spec_repos_bytes(
            rs.drop_last(),
        ).subrange(36 * i + 16, 36 * i + 36));
    }
}

/// Round trip: serializing any well-formed sync file yields bytes that
/// deserialize successfully, to records equal to the originals.
pub proof fn lemma_sync_file_round_trip(f: SyncFile)
    requires
        f.wf(),
    ensures
        valid_sync_bytes(f.spec_serialize()),
        (f.spec_serialize().len() - 33) / 36 == f.repositories@.len(),
        forall|i: int|
            0 <= i < f.repositories@.len() ==> {
                &&& spec_record_at(f.spec_serialize(), i).0 == (
                #[trigger] f.repositories@[i]).uuid@
                &&& spec_record_at(f.spec_serialize(), i).1 == f.repositories@[i].hash@
            },
{
    let data = f.spec_serialize();
    lemma_repos_bytes_len(f.repositories@);
    assert(data.subrange(1, 33) =~= spec_notice());
    assert forall|i: int| 0 <= i < f.repositories@.len() implies {
        &&& spec_record_at(data, i).0 == (#[trigger] f.repositories@[i]).uuid@
        &&& spec_record_at(data, i).1 == f.repositories@[i].hash@
    } by {
        lemma_repos_bytes_index(f.repositories@, i);
        assert(spec_record_at(data, i).0 =~= spec_repos_bytes(f.repositories@).subrange(
            36 * i,
            36 * i + 16,
        ));
        assert(spec_record_at(data, i).1 =~= spec_repos_bytes(f.repositories@).subrange(
            36 * i + 16,
            36 * i + 36,
        ));
    }
}

/// Rejection: flipping the version byte, any notice byte, or truncating the
/// record region off its 36-byte alignment makes the bytes invalid.
pub proof fn lemma_sync_file_rejects_corruption(f: SyncFile, data: Seq<u8>)
    requires
        f.wf(),
    ensures
        data.len() == f.spec_serialize().len() && data[0] != f.spec_serialize()[0]
            ==> !valid_sync_bytes(data),
        forall|i: int|
            1 <= i < 33 && data.len() == f.spec_serialize().len() && data[i]
                != f.spec_serialize()[i] && data.subrange(0, i) == f.spec_serialize().subrange(0, i)
                ==> !valid_sync_bytes(data),
        forall|n: int|
            33 <= n < f.spec_serialize().len() && (n - 33) % 36 != 0 ==> !valid_sync_bytes(
                data.subrange(0, n),
            ) || data.subrange(0, n).len() != n,
{
    let good = f.spec_serialize();
    lemma_repos_bytes_len(f.repositories@);
    assert forall|i: int|
        1 <= i < 33 && data.len() == good.len() && data[i] != good[i] && data.subrange(0, i)
            == good.subrange(0, i) implies !valid_sync_bytes(data) by {
        if valid_sync_bytes(data) {
            assert(data.subrange(1, 33)[i - 1] == spec_notice()[i - 1]);
            assert(good.subrange(1, 33)[i - 1] == good[i]);
            assert(good.subrange(1, 33) =~= spec_notice());
        }
    }
    assert forall|n: int| 33 <= n < good.len() && (n - 33) % 36 != 0 implies !valid_sync_bytes(
        data.subrange(0, n),
    ) || data.subrange(0, n).len() != n by {
        if data.subrange(0, n).len() == n {
            assert(data.subrange(0, n).len() - 33 == n - 33);
        }
    }
}

} // verus!
