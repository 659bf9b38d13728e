//! The size-then-content equality oracle, and the hex codec and MD5
//! digest it rests on.
//!
//! Cheap first: files of different sizes are different. Otherwise the MD5
//! of the local bytes is compared with the remote MD5. Remote digests come
//! batched per directory (one listing call covers all siblings) and are
//! cached by remote arena index in an [`Md5Cache`].

use vstd::prelude::*;

use crate::sync_file::bytes_eq;
use crate::tree::{find_in_children, RemoteTree};

verus! {

/// ASCII code of the lowercase hex digit for `n` in `[0, 16)`.
pub open spec fn hex_val(n: u8) -> u8 {
    if n < 10 {
        (48 + n) as u8
    } else {
        (87 + n) as u8
    }
}

/// Lowercase hex encoding of a byte string, as ASCII codes, two digits per
/// byte, high nibble first.
pub open spec fn hex_of(bytes: Seq<u8>) -> Seq<u8> {
    Seq::new(
        2 * bytes.len(),
        |i: int|
            if i % 2 == 0 {
                hex_val(bytes[i / 2] / 16)
            } else {
                hex_val(bytes[i / 2] % 16)
            },
    )
}

/// Lowercase hex encoding of a byte string.
pub fn hex_lower(bytes: &Vec<u8>) -> (r: Vec<u8>)
    ensures
        r@ == hex_of(bytes@),
{
    let n = bytes.len();
    let mut r: Vec<u8> = Vec::new();
    let mut i: usize = 0;
    while i < n
        invariant
            n == bytes@.len(),
            i <= n,
            r@ =~= hex_of(bytes@).subrange(0, 2 * i as int),
        decreases n - i,
    {
        let b = bytes[i];
        let hi = b / 16;
        let lo = b % 16;
        r.push(
            if hi < 10 {
                48 + hi
            } else {
                87 + hi
            },
        );
        r.push(
            if lo < 10 {
                48 + lo
            } else {
                87 + lo
            },
        );
        proof {
            assert(hex_of(bytes@)[2 * i as int] == hex_val(b / 16));
            assert(hex_of(bytes@)[2 * i as int + 1] == hex_val(b % 16));
            assert(r@ =~= hex_of(bytes@).subrange(0, 2 * (i + 1)));
        }
        i = i + 1;
    }
    proof {
        assert(hex_of(bytes@).subrange(0, 2 * n as int) =~= hex_of(bytes@));
    }
    r
}

/// The hex value of an ASCII code, for lowercase digits only.
pub open spec fn unhex_val(c: u8) -> Option<u8> {
    if 48 <= c <= 57 {
        Some((c - 48) as u8)
    } else if 97 <= c <= 102 {
        Some((c - 87) as u8)
    } else {
        None
    }
}

/// Decodes a lowercase-hex ASCII string back to bytes. Accepts exactly the
/// strings that `hex_of` produces.
pub fn hex_decode(ascii: &Vec<u8>) -> (r: Option<Vec<u8>>)
    ensures
        r is Some <==> (ascii@.len() % 2 == 0 && forall|i: int|
            0 <= i < ascii@.len() ==> unhex_val(#[trigger] ascii@[i]) is Some),
        r matches Some(d) ==> hex_of(d@) == ascii@,
{
    let n = ascii.len();
    if n % 2 != 0 {
        return None;
    }
    let half = n / 2;
    let mut d: Vec<u8> = Vec::new();
    let mut i: usize = 0;
    while i < half
        invariant
            n == ascii@.len(),
            n % 2 == 0,
            half == n / 2,
            i <= half,
            d@.len() == i,
            forall|j: int|
                0 <= j < 2 * i ==> unhex_val(#[trigger] ascii@[j]) is Some,
            forall|j: int|
                0 <= j < i ==> {
                    &&& hex_val(#[trigger] d@[j] / 16) == ascii@[2 * j]
                    &&& hex_val(d@[j] % 16) == ascii@[2 * j + 1]
                },
        decreases half - i,
    {
        let hi = ascii[2 * i];
        let lo = ascii[2 * i + 1];
        let hv: u8 = if 48 <= hi && hi <= 57 {
            hi - 48
        } else if 97 <= hi && hi <= 102 {
            hi - 87
        } else {
            proof {
                assert(unhex_val(ascii@[2 * i as int]) is None);
            }
            return None;
        };
        let lv: u8 = if 48 <= lo && lo <= 57 {
            lo - 48
        } else if 97 <= lo && lo <= 102 {
            lo - 87
        } else {
            proof {
                assert(unhex_val(ascii@[2 * i as int + 1]) is None);
            }
            return None;
        };
        d.push(hv * 16 + lv);
        proof {
            let b = (hv * 16 + lv) as int;
            assert(b / 16 == hv && b % 16 == lv) by (nonlinear_arith)
                requires
                    hv < 16,
                    lv < 16,
                    b == hv * 16 + lv,
            ;
        }
        i = i + 1;
    }
    proof {
        assert(hex_of(d@) =~= ascii@);
    }
    Some(d)
}

/// Distinct byte strings have distinct hex encodings (and conversely): the
/// batched hex digests classify exactly as the raw digests do.
pub proof fn lemma_hex_injective(a: Seq<u8>, b: Seq<u8>)
    ensures
        (hex_of(a) == hex_of(b)) <==> (a == b),
{
    if hex_of(a) == hex_of(b) {
        assert(hex_of(a).len() == 2 * a.len());
        assert(hex_of(b).len() == 2 * b.len());
        assert forall|i: int| 0 <= i < a.len() implies a[i] == b[i] by {
            assert(hex_of(a)[2 * i] == hex_val(a[i] / 16));
            assert(hex_of(b)[2 * i] == hex_val(b[i] / 16));
            assert(hex_of(a)[2 * i + 1] == hex_val(a[i] % 16));
            assert(hex_of(b)[2 * i + 1] == hex_val(b[i] % 16));
            assert(a[i] / 16 == b[i] / 16 && a[i] % 16 == b[i] % 16);
        }
        assert(a =~= b);
    }
}

/// The MD5 digest of a byte string; a pure function of the bytes.
pub uninterp spec fn md5_of(data: Seq<u8>) -> Seq<u8>;

/// Relies on md5::compute: the 16-byte digest depends on the input bytes
/// alone.
#[verifier::external_body]
fn md5_digest(data: &Vec<u8>) -> (r: Vec<u8>)
    ensures
        r@ == md5_of(data@),
        r@.len() == 16,
{
    md5::compute(data.as_slice()).0.to_vec()
}

/// The MD5 digest of file contents, as raw bytes.
pub fn content_digest(data: &Vec<u8>) -> (r: Vec<u8>)
    ensures
        r@ == md5_of(data@),
        r@.len() == 16,
{
    md5_digest(data)
}

/// The equality verdict on one matched file: different when the sizes
/// differ or, at equal sizes, when the digests differ.
pub open spec fn spec_different(
    local_size: Option<u32>,
    remote_size: Option<u32>,
    local_md5: Seq<u8>,
    remote_md5: Seq<u8>,
) -> bool {
    local_size != remote_size || local_md5 != remote_md5
}

/// Classifies one matched file from its sizes and digests. Batch-fetched
/// digests and per-file digests give this function the same inputs, so the
/// classification is the same.
pub fn classify_file(
    local_size: Option<u32>,
    remote_size: Option<u32>,
    local_md5: &Vec<u8>,
    remote_md5: &Vec<u8>,
) -> (r: bool)
    ensures
        r == spec_different(local_size, remote_size, local_md5@, remote_md5@),
{
    let sizes_match = match (local_size, remote_size) {
        (Some(a), Some(b)) => a == b,
        (None, None) => true,
        _ => false,
    };
    if !sizes_match {
        true
    } else {
        !bytes_eq(local_md5, remote_md5)
    }
}

/// A file of the same size and the same content as its remote copy is
/// never classified as different.
pub proof fn lemma_equal_content_same(size: Option<u32>, content: Seq<u8>)
    ensures
        !spec_different(size, size, md5_of(content), md5_of(content)),
{
}

/// Remote MD5 digests, cached by remote arena index so that one directory
/// listing serves every sibling of a candidate file.
pub struct Md5Cache {
    pub entries: Vec<Option<Vec<u8>>>,
}

impl Md5Cache {
    /// An empty cache for a remote tree of `n` nodes.
    pub fn new(n: usize) -> (r: Md5Cache)
        ensures
            r.entries@.len() == n,
            forall|i: int| 0 <= i < n ==> (#[trigger] r.entries@[i]) is None,
    {
        let mut entries: Vec<Option<Vec<u8>>> = Vec::new();
        let mut i: usize = 0;
        while i < n
            invariant
                i <= n,
                entries@.len() == i,
                forall|j: int| 0 <= j < i ==> (#[trigger] entries@[j]) is None,
            decreases n - i,
        {
            entries.push(None);
            i = i + 1;
        }
        Md5Cache { entries }
    }

    /// The cached digest for a remote node, if any.
    pub fn get(&self, idx: usize) -> (r: Option<&Vec<u8>>)
        ensures
            (match r {
                Some(d) => self.entries@.len() > idx && (self.entries@[idx as int] matches Some(e)
                    && d@ == e@),
                None => idx >= self.entries@.len() || self.entries@[idx as int] is None,
            }),
    {
        if idx < self.entries.len() {
            match &self.entries[idx] {
                Some(d) => Some(d),
                None => None,
            }
        } else {
            None
        }
    }

    /// Folds one batched listing of `(name, digest)` pairs for the
    /// directory at `parent` into the cache: each named child of `parent`
    /// gets its digest; other slots stay as they were.
    pub fn fill(&mut self, remote: &RemoteTree, parent: usize, listing: &Vec<(String, Vec<u8>)>)
        requires
            crate::tree::tree_wf(remote@),
            parent < remote@.len(),
        ensures
            final(self).entries@.len() == old(self).entries@.len(),
            forall|e: int|
                0 <= e < listing@.len() ==> (match find_in_children(
                    remote@[parent as int].children,
                    (#[trigger] listing@[e]).0@,
                ) {
                    Some(c) => 0 <= c < final(self).entries@.len() ==> (final(self).entries@[c]
                        matches Some(d) && (exists|e2: int|
                        0 <= e2 < listing@.len() && (#[trigger] listing@[e2]).0@ == listing@[e].0@
                            && d@ == listing@[e2].1@)),
                    None => true,
                }),
    {
        let n = listing.len();
        let mut e: usize = 0;
        while e < n
            invariant
                crate::tree::tree_wf(remote@),
                parent < remote@.len(),
                n == listing@.len(),
                e <= n,
                self.entries@.len() == old(self).entries@.len(),
                forall|k: int|
                    0 <= k < e ==> (match find_in_children(
                        remote@[parent as int].children,
                        (#[trigger] listing@[k]).0@,
                    ) {
                        Some(c) => 0 <= c < self.entries@.len() ==> (self.entries@[c] matches Some(
                            d,
                        ) && (exists|e2: int|
                            0 <= e2 < listing@.len() && (#[trigger] listing@[e2]).0@
                                == listing@[k].0@ && d@ == listing@[e2].1@)),
                        None => true,
                    }),
            decreases n - e,
        {
            let ghost pre = self.entries@;
            let name = &listing[e].0;
            match remote.find_child_by_name(parent, name) {
                Some(c) => {
                    if c < self.entries.len() {
                        let digest = listing[e].1.clone();
                        self.entries[c] = Some(digest);
                        proof {
                            assert(self.entries@[c as int] matches Some(d) && d@
                                == listing@[e as int].1@);
                            assert forall|k: int| 0 <= k < e + 1 implies (match find_in_children(
                                remote@[parent as int].children,
                                (#[trigger] listing@[k]).0@,
                            ) {
                                Some(cc) => 0 <= cc < self.entries@.len() ==> (
                                self.entries@[cc] matches Some(d) && (exists|e2: int|
                                    0 <= e2 < listing@.len() && (#[trigger] listing@[e2]).0@
                                        == listing@[k].0@ && d@ == listing@[e2].1@)),
                                None => true,
                            }) by {
                                match find_in_children(
                                    remote@[parent as int].children,
                                    listing@[k].0@,
                                ) {
                                    Some(cc) => {
                                        if 0 <= cc < self.entries@.len() {
                                            if cc == c {
                                                assert(listing@[e as int].0@ == name@);
                                                if listing@[k].0@ == name@ {
                                                    assert(0 <= e < listing@.len()
                                                        && listing@[e as int].0@ == listing@[k].0@);
                                                } else {
                                                    crate::tree::lemma_find_is_child(
                                                        remote@[parent as int].children,
                                                        listing@[k].0@,
                                                    );
                                                    crate::tree::lemma_find_is_child(
                                                        remote@[parent as int].children,
                                                        name@,
                                                    );
                                                    assert(false);
                                                }
                                            } else {
                                                assert(self.entries@[cc] == pre[cc]);
                                            }
                                        }
                                    },
                                    None => {},
                                }
                            }
                        }
                    }
                },
                None => {},
            }
            e = e + 1;
        }
    }
}

} // verus!
