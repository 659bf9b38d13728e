//! Published firmware directory manifests: channels, versions and
//! downloadable files, and the selection of the latest `.tgz` artifact.

use vstd::prelude::*;

use crate::paths::str_eq;

verus! {

/// The well-known directory manifest URLs, one per published source.
pub const OFFICIAL_DIRECTORY: &'static str =
    "https://update.flipperzero.one/firmware/directory.json";

pub const UNLEASHED_DIRECTORY: &'static str = "https://up.unleashedflip.com/directory.json";

pub const MOMENTUM_DIRECTORY: &'static str = "https://up.momentum-fw.dev/firmware/directory.json";

/// A release channel identifier.
#[derive(Debug, PartialEq, Eq, Clone, Copy, Structural)]
pub enum Id {
    Development,
    ReleaseCanidate,
    Release,
}

impl Id {
    /// The channel's name as it appears in firmware strings.
    pub fn as_str(&self) -> (r: &'static str)
        ensures
            (match self {
                Id::Release => r@ == "release"@,
                Id::ReleaseCanidate => r@ == "release-candidate"@,
                Id::Development => r@ == "development"@,
            }),
    {
        match self {
            Id::Release => "release",
            Id::ReleaseCanidate => "release-candidate",
            Id::Development => "development",
        }
    }
}

/// The hardware target of a firmware file.
#[derive(Debug, PartialEq, Eq, Clone, Copy, Structural)]
pub enum Target {
    F7,
    F18,
    Any,
}

impl Target {
    /// The target's name as it appears in manifests.
    pub fn as_str(&self) -> (r: &'static str)
        ensures
            (match self {
                Target::F7 => r@ == "f7"@,
                Target::F18 => r@ == "f18"@,
                Target::Any => r@ == "any"@,
            }),
    {
        match self {
            Target::F7 => "f7",
            Target::F18 => "f18",
            Target::Any => "any",
        }
    }
}

/// One downloadable file of a version.
#[derive(Debug)]
pub struct File {
    pub url: String,
    pub target: Target,
    pub file_type: String,
    pub sha256: String,
}

/// One published version of a channel.
#[derive(Debug)]
pub struct Version {
    pub version: String,
    pub changelog: String,
    pub timestamp: u64,
    pub files: Vec<File>,
}

/// No file of the wanted type exists in the version.
#[derive(Debug, Clone, Copy, PartialEq, Eq)]
pub struct NoUpdateTgz;

impl Version {
    /// The first file whose type is `update_tgz`: the artifact that the
    /// installer stages.
    pub fn latest_tgz(&self) -> (r: Result<&File, NoUpdateTgz>)
        ensures
            r is Ok <==> exists|i: int|
                0 <= i < self.files@.len() && (#[trigger] self.files@[i]).file_type@
                    == "update_tgz"@,
            r matches Ok(f) ==> exists|i: int|
                {
                    &&& 0 <= i < self.files@.len()
                    &&& (#[trigger] self.files@[i]).file_type@ == "update_tgz"@
                    &&& f == &self.files@[i]
                    &&& forall|j: int|
                        0 <= j < i ==> (#[trigger] self.files@[j]).file_type@ != "update_tgz"@
                },
    {
        let n = self.files.len();
        let mut i: usize = 0;
        while i < n
            invariant
                n == self.files@.len(),
                i <= n,
                forall|j: int| 0 <= j < i ==> (#[trigger] self.files@[j]).file_type@ != "update_tgz"@,
            decreases n - i,
        {
            if str_eq(self.files[i].file_type.as_str(), "update_tgz") {
                return Ok(&self.files[i]);
            }
            i = i + 1;
        }
        Err(NoUpdateTgz)
    }
}

/// One release channel of a directory manifest.
#[derive(Debug)]
pub struct Channel {
    pub id: Id,
    pub title: String,
    pub description: String,
    pub versions: Option<Vec<Version>>,
}

/// A published directory manifest.
#[derive(Debug)]
pub struct Directory {
    pub channels: Vec<Channel>,
}

impl Directory {
    /// The latest version (the first listed) of the channel with the given
    /// id, or nothing when no channel matches. Callers ensure that every
    /// matching channel carries at least one version.
    pub fn channel_latest_version(&self, channel: &Id) -> (r: Option<&Version>)
        requires
            forall|i: int|
                0 <= i < self.channels@.len() && (#[trigger] self.channels@[i]).id == *channel
                    ==> (self.channels@[i].versions matches Some(v) && v@.len() > 0),
        ensures
            r is Some <==> exists|i: int|
                0 <= i < self.channels@.len() && (#[trigger] self.channels@[i]).id == *channel,
            r matches Some(v) ==> exists|i: int|
                {
                    &&& 0 <= i < self.channels@.len()
                    &&& (#[trigger] self.channels@[i]).id == *channel
                    &&& self.channels@[i].versions matches Some(vs) && v == &vs@[0]
                    &&& forall|j: int| 0 <= j < i ==> (#[trigger] self.channels@[j]).id != *channel
                },
    {
        let n = self.channels.len();
        let mut i: usize = 0;
        while i < n
            invariant
                n == self.channels@.len(),
                i <= n,
                forall|k: int|
                    0 <= k < self.channels@.len() && (#[trigger] self.channels@[k]).id == *channel
                        ==> (self.channels@[k].versions matches Some(v) && v@.len() > 0),
                forall|j: int| 0 <= j < i ==> (#[trigger] self.channels@[j]).id != *channel,
            decreases n - i,
        {
            if self.channels[i].id == *channel {
                match &self.channels[i].versions {
                    Some(vs) => {
                        return Some(&vs[0]);
                    },
                    None => {
                        proof {
                            assert(false);
                        }
                    },
                }
            }
            i = i + 1;
        }
        None
    }
}

} // verus!
