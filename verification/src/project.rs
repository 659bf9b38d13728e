//! The persistent project state: a name, a firmware selection, and the
//! repositories with their mappings, keyed by unique names and unique
//! URL-derived UUIDs.

use vstd::prelude::*;
use vstd::utf8::encode_utf8;

use crate::firmware::Firmware;
use crate::ids::uuid_for;
use crate::ids::uuid5_url_of;
use crate::mapping::{Mappings, MappingEntry};
use crate::validators::{normalize_url, spec_valid_project_name, url_normal_of,
    validate_project_name};

verus! {

/// One configured upstream repository.
#[derive(Debug)]
pub struct Repository {
    /// Upstream URL in its normal form.
    pub url: String,
    /// UUIDv5 of the URL bytes under the URL namespace: the repository's
    /// stable identity, independent of its user-chosen name.
    pub uuid: Vec<u8>,
    /// The per-domain selectors.
    pub mappings: Mappings,
}

/// The URL-derived identity of a repository: the UUIDv5 of the bytes of
/// the URL's normal form.
pub open spec fn spec_uuid_of_url(url: Seq<char>) -> Seq<u8> {
    uuid5_url_of(encode_utf8(url_normal_of(url)))
}

/// Some existing entry already carries this name or this identity.
pub open spec fn spec_repo_conflict(
    rs: Seq<(String, Repository)>,
    name: Seq<char>,
    uuid: Seq<u8>,
) -> bool {
    exists|i: int| 0 <= i < rs.len() && ((#[trigger] rs[i]).0@ == name || rs[i].1.uuid@ == uuid)
}

/// Every mapping slot is absent.
pub open spec fn spec_mappings_empty(m: Mappings) -> bool {
    &&& m.ibutton is None
    &&& m.subghz is None
    &&& m.badusb is None
    &&& m.rfid is None
    &&& m.nfc is None
    &&& m.ir is None
}

/// The repository list is well formed: names unique, UUIDs unique and 16
/// bytes long.
pub open spec fn repos_wf(rs: Seq<(String, Repository)>) -> bool {
    &&& forall|i: int, j: int|
        0 <= i < j < rs.len() ==> (#[trigger] rs[i]).0@ != (#[trigger] rs[j]).0@ && rs[i].1.uuid@
            != rs[j].1.uuid@
    &&& forall|i: int| 0 <= i < rs.len() ==> (#[trigger] rs[i]).1.uuid@.len() == 16
}

/// The persistent project state.
#[derive(Debug)]
pub struct Flip {
    /// Absolute path of the project root on the host.
    pub source_path: String,
    /// Validated project name.
    pub name: String,
    /// Selected firmware source.
    pub firmware: Firmware,
    /// Repositories, keyed by unique name.
    pub repositories: Vec<(String, Repository)>,
}

/// Why a repository could not be added or removed.
#[derive(Debug, Clone, Copy, PartialEq, Eq)]
pub enum RepoError {
    /// The name fails project-name validation.
    InvalidName,
    /// The URL parser rejected the URL.
    BadUrl,
    /// A repository with this name or this URL identity already exists.
    AlreadyExists,
    /// No repository has this name.
    NotFound,
}

impl Flip {
    /// Index of the repository with the given name, if any.
    pub fn repo_index(&self, name: &String) -> (r: Option<usize>)
        ensures
            r is Some <==> exists|i: int|
                0 <= i < self.repositories@.len() && (#[trigger] self.repositories@[i]).0@
                    == name@,
            r matches Some(i) ==> i < self.repositories@.len() && self.repositories@[i as int].0@
                == name@,
    {
        let n = self.repositories.len();
        let mut i: usize = 0;
        while i < n
            invariant
                n == self.repositories@.len(),
                i <= n,
                forall|j: int| 0 <= j < i ==> (#[trigger] self.repositories@[j]).0@ != name@,
            decreases n - i,
        {
            if crate::paths::str_eq(self.repositories[i].0.as_str(), name.as_str()) {
                return Some(i);
            }
            i = i + 1;
        }
        None
    }

    /// Adds a repository. It succeeds exactly when the name validates, the
    /// URL parses, and neither the name nor the URL identity is already
    /// present; then the list gains one entry at the end, with the
    /// normalized URL, the URL-derived identity, and empty mappings.
    pub fn add_repository(&mut self, name: String, url: String) -> (r: Result<(), RepoError>)
        requires
            repos_wf(old(self).repositories@),
        ensures
            repos_wf(final(self).repositories@),
            r is Ok <==> (spec_valid_project_name(name@) && crate::validators::url_ok_of(url@)
                && !spec_repo_conflict(old(self).repositories@, name@, spec_uuid_of_url(url@))),
            r is Ok ==> {
                &&& final(self).repositories@.len() == old(self).repositories@.len() + 1
                &&& final(self).repositories@.subrange(0, old(self).repositories@.len() as int)
                    == old(self).repositories@
                &&& final(self).repositories@.last().0@ == name@
                &&& final(self).repositories@.last().1.url@ == url_normal_of(url@)
                &&& final(self).repositories@.last().1.uuid@ == spec_uuid_of_url(url@)
                &&& spec_mappings_empty(final(self).repositories@.last().1.mappings)
            },
            r matches Err(e) ==> *final(self) == *old(self) && {
                &&& e == RepoError::InvalidName <==> !spec_valid_project_name(name@)
                &&& e == RepoError::BadUrl <==> (spec_valid_project_name(name@)
                    && !crate::validators::url_ok_of(url@))
                &&& e == RepoError::AlreadyExists <==> (spec_valid_project_name(name@)
                    && crate::validators::url_ok_of(url@) && spec_repo_conflict(
                    old(self).repositories@,
                    name@,
                    spec_uuid_of_url(url@),
                ))
            },
    {
        if validate_project_name(name.as_str()).is_err() {
            return Err(RepoError::InvalidName);
        }
        let normal = match normalize_url(&url) {
            Some(u) => u,
            None => {
                return Err(RepoError::BadUrl);
            },
        };
        let normal_str = normal.as_str();
        let url_bytes = normal_str.as_bytes_vec();
        let uuid = uuid_for(&url_bytes);
        let n = self.repositories.len();
        let mut i: usize = 0;
        while i < n
            invariant
                *self == *old(self),
                repos_wf(self.repositories@),
                n == self.repositories@.len(),
                i <= n,
                spec_valid_project_name(name@),
                crate::validators::url_ok_of(url@),
                uuid@ == spec_uuid_of_url(url@),
                forall|j: int|
                    0 <= j < i ==> (#[trigger] self.repositories@[j]).0@ != name@
                        && self.repositories@[j].1.uuid@ != uuid@,
            decreases n - i,
        {
            if crate::paths::str_eq(self.repositories[i].0.as_str(), name.as_str()) {
                proof {
                    assert(0 <= i < self.repositories@.len() && ((
                    #[trigger] self.repositories@[i as int]).0@ == name@
                        || self.repositories@[i as int].1.uuid@ == spec_uuid_of_url(url@)));
                }
                return Err(RepoError::AlreadyExists);
            }
            if crate::sync_file::bytes_eq(&self.repositories[i].1.uuid, &uuid) {
                proof {
                    assert(0 <= i < self.repositories@.len() && ((
                    #[trigger] self.repositories@[i as int]).0@ == name@
                        || self.repositories@[i as int].1.uuid@ == spec_uuid_of_url(url@)));
                }
                return Err(RepoError::AlreadyExists);
            }
            i = i + 1;
        }
        let ghost pre = self.repositories@;
        let repo = Repository { url: normal, uuid, mappings: Mappings::new() };
        self.repositories.push((name, repo));
        proof {
            assert(self.repositories@.subrange(0, pre.len() as int) =~= pre);
            assert forall|a: int, b: int|
                0 <= a < b < self.repositories@.len() implies (
            #[trigger] self.repositories@[a]).0@ != (#[trigger] self.repositories@[b]).0@
                && self.repositories@[a].1.uuid@ != self.repositories@[b].1.uuid@ by {
                if b < pre.len() {
                } else {
                    assert(self.repositories@[a] == pre[a]);
                }
            }
        }
        Ok(())
    }

    /// Removes the repository with the given name: exactly that entry
    /// leaves the list, every other entry stays in order.
    pub fn remove_repository(&mut self, name: &String) -> (r: Result<(), RepoError>)
        requires
            repos_wf(old(self).repositories@),
        ensures
            repos_wf(final(self).repositories@),
            r is Ok <==> exists|i: int|
                0 <= i < old(self).repositories@.len() && (
                #[trigger] old(self).repositories@[i]).0@ == name@,
            r is Ok ==> exists|i: int|
                {
                    &&& 0 <= i < old(self).repositories@.len()
                    &&& (#[trigger] old(self).repositories@[i]).0@ == name@
                    &&& final(self).repositories@ == old(self).repositories@.subrange(0, i) + old(
                        self,
                    ).repositories@.subrange(i + 1, old(self).repositories@.len() as int)
                },
            r is Err ==> *final(self) == *old(self),
    {
        match self.repo_index(name) {
            Some(i) => {
                let ghost pre = self.repositories@;
                self.repositories.remove(i);
                proof {
                    assert(self.repositories@ =~= pre.subrange(0, i as int) + pre.subrange(
                        i + 1,
                        pre.len() as int,
                    ));
                    assert(0 <= i < pre.len() && pre[i as int].0@ == name@
                        && self.repositories@ == pre.subrange(0, i as int) + pre.subrange(
                        i + 1,
                        pre.len() as int,
                    ));
                    assert forall|a: int, b: int|
                        0 <= a < b < self.repositories@.len() implies (
                    #[trigger] self.repositories@[a]).0@ != (#[trigger] self.repositories@[b]).0@
                        && self.repositories@[a].1.uuid@ != self.repositories@[b].1.uuid@ by {
                        let a0 = if a < i { a } else { a + 1 };
                        let b0 = if b < i { b } else { b + 1 };
                        assert(self.repositories@[a] == pre[a0]);
                        assert(self.repositories@[b] == pre[b0]);
                    }
                    assert forall|a: int|
                        0 <= a < self.repositories@.len() implies (
                    #[trigger] self.repositories@[a]).1.uuid@.len() == 16 by {
                        let a0 = if a < i { a } else { a + 1 };
                        assert(self.repositories@[a] == pre[a0]);
                    }
                }
                Ok(())
            },
            None => Err(RepoError::NotFound),
        }
    }
}

/// One device-database domain.
#[derive(Debug, Clone, Copy, PartialEq, Eq, Structural)]
pub enum Domain {
    Subghz,
    Rfid,
    Nfc,
    Ir,
    Ibutton,
    Badusb,
}

impl Domain {
    /// Parses a domain name as the command line writes it.
    pub fn parse(s: &str) -> (r: Option<Domain>)
        ensures
            (match r {
                Some(Domain::Subghz) => s@ == "subghz"@,
                Some(Domain::Rfid) => s@ == "rfid"@,
                Some(Domain::Nfc) => s@ == "nfc"@,
                Some(Domain::Ir) => s@ == "ir"@,
                Some(Domain::Ibutton) => s@ == "ibutton"@,
                Some(Domain::Badusb) => s@ == "badusb"@,
                None => s@ != "subghz"@ && s@ != "rfid"@ && s@ != "nfc"@ && s@ != "ir"@ && s@
                    != "ibutton"@ && s@ != "badusb"@,
            }),
    {
        if crate::paths::str_eq(s, "subghz") {
            Some(Domain::Subghz)
        } else if crate::paths::str_eq(s, "rfid") {
            Some(Domain::Rfid)
        } else if crate::paths::str_eq(s, "nfc") {
            Some(Domain::Nfc)
        } else if crate::paths::str_eq(s, "ir") {
            Some(Domain::Ir)
        } else if crate::paths::str_eq(s, "ibutton") {
            Some(Domain::Ibutton)
        } else if crate::paths::str_eq(s, "badusb") {
            Some(Domain::Badusb)
        } else {
            None
        }
    }
}

/// The mapping slot of a domain, for reading or updating in place.
pub fn slot_mut(mappings: &mut Mappings, domain: Domain) -> (r: &mut Option<MappingEntry>)
    ensures
        (match domain {
            Domain::Subghz => *r == old(mappings).subghz && *final(mappings) == (Mappings {
                subghz: *final(r),
                ..*old(mappings)
            }),
            Domain::Rfid => *r == old(mappings).rfid && *final(mappings) == (Mappings {
                rfid: *final(r),
                ..*old(mappings)
            }),
            Domain::Nfc => *r == old(mappings).nfc && *final(mappings) == (Mappings {
                nfc: *final(r),
                ..*old(mappings)
            }),
            Domain::Ir => *r == old(mappings).ir && *final(mappings) == (Mappings {
                ir: *final(r),
                ..*old(mappings)
            }),
            Domain::Ibutton => *r == old(mappings).ibutton && *final(mappings) == (Mappings {
                ibutton: *final(r),
                ..*old(mappings)
            }),
            Domain::Badusb => *r == old(mappings).badusb && *final(mappings) == (Mappings {
                badusb: *final(r),
                ..*old(mappings)
            }),
        }),
{
    match domain {
        Domain::Subghz => &mut mappings.subghz,
        Domain::Rfid => &mut mappings.rfid,
        Domain::Nfc => &mut mappings.nfc,
        Domain::Ir => &mut mappings.ir,
        Domain::Ibutton => &mut mappings.ibutton,
        Domain::Badusb => &mut mappings.badusb,
    }
}

} // verus!
