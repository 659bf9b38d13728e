//! Firmware install staging: turning the entries of the update archive
//! into the ordered device actions that stage it under `/ext/update`, and
//! the update manifest path sent to the device.

use vstd::prelude::*;

use crate::paths::spec_join;
use crate::upload::join_under;

verus! {

/// One entry of the update archive, in archive order.
#[derive(Debug)]
pub struct TgzEntry {
    /// Path inside the archive, as components.
    pub path: Vec<String>,
    /// Whether the entry is a directory.
    pub is_dir: bool,
    /// Declared size in bytes (zero for directories).
    pub size: u64,
}

/// One staging action against the device.
#[derive(Debug, PartialEq, Eq)]
pub enum StageStep {
    /// Create the directory if it does not exist yet.
    MakeDir(String),
    /// Create the directory; if it already existed, remove it recursively
    /// and create it again, so staging starts from a clean state.
    MakeDirClean(String),
    /// Stream the archive entry's bytes into the file, `size` bytes.
    WriteFile(String, u64),
}

/// The device directory that updates are staged under.
pub open spec fn update_root() -> Seq<char> {
    "/ext/update"@
}

/// The staging plan for an archive: ensure the update root, then one step
/// per entry in archive order, directories cleaned, files written, each at
/// its path under the update root.
pub fn stage_plan(entries: &Vec<TgzEntry>) -> (r: Vec<StageStep>)
    requires
        forall|i: int| 0 <= i < entries@.len() ==> (#[trigger] entries@[i]).path@.len() > 0,
    ensures
        r@.len() == 1 + entries@.len(),
        r@[0] matches StageStep::MakeDir(p) && p@ == update_root(),
        forall|i: int|
            0 <= i < entries@.len() ==> {
                let e = #[trigger] entries@[i];
                let target = join_under(update_root(), spec_join(e.path.deep_view()));
                &&& (e.is_dir ==> (r@[1 + i] matches StageStep::MakeDirClean(p) && p@ == target))
                &&& (!e.is_dir ==> (r@[1 + i] matches StageStep::WriteFile(p, sz) && p@ == target
                    && sz == e.size))
            },
{
    let mut r: Vec<StageStep> = Vec::new();
    r.push(StageStep::MakeDir(String::from_str("/ext/update")));
    let n = entries.len();
    let mut i: usize = 0;
    while i < n
        invariant
            n == entries@.len(),
            forall|k: int| 0 <= k < entries@.len() ==> (#[trigger] entries@[k]).path@.len() > 0,
            i <= n,
            r@.len() == 1 + i,
            r@[0] matches StageStep::MakeDir(p) && p@ == update_root(),
            forall|k: int|
                0 <= k < i ==> {
                    let e = #[trigger] entries@[k];
                    let target = join_under(update_root(), spec_join(e.path.deep_view()));
                    &&& (e.is_dir ==> (r@[1 + k] matches StageStep::MakeDirClean(p) && p@ == target))
                    &&& (!e.is_dir ==> (r@[1 + k] matches StageStep::WriteFile(p, sz) && p@
                        == target && sz == e.size))
                },
        decreases n - i,
    {
        let entry = &entries[i];
        let joined = crate::paths::join_components(&entry.path);
        let mut target = String::from_str("/ext/update");
        if joined.as_str().unicode_len() > 0 {
            target.append("/");
            target.append(joined.as_str());
            proof {
                reveal_strlit("/");
                assert("/"@ =~= seq!['/']);
            }
        }
        if entry.is_dir {
            r.push(StageStep::MakeDirClean(target));
        } else {
            r.push(StageStep::WriteFile(target, entry.size));
        }
        i = i + 1;
    }
    r
}

/// The manifest path sent with the system-update request: `update.fuf`
/// inside the staged base directory.
pub fn manifest_path(base: &String) -> (r: String)
    ensures
        r@ == base@ + "/update.fuf"@,
{
    let mut r = base.clone();
    r.append("/update.fuf");
    r
}

/// The staged update base: the path of the first directory entry of the
/// archive, under the update root.
pub fn update_base(entries: &Vec<TgzEntry>) -> (r: Option<String>)
    requires
        forall|i: int| 0 <= i < entries@.len() ==> (#[trigger] entries@[i]).path@.len() > 0,
    ensures
        r is Some <==> exists|i: int| 0 <= i < entries@.len() && (#[trigger] entries@[i]).is_dir,
        r matches Some(p) ==> exists|i: int|
            {
                &&& 0 <= i < entries@.len()
                &&& (#[trigger] entries@[i]).is_dir
                &&& p@ == join_under(update_root(), spec_join(entries@[i].path.deep_view()))
                &&& forall|j: int| 0 <= j < i ==> !(#[trigger] entries@[j]).is_dir
            },
{
    let n = entries.len();
    let mut i: usize = 0;
    while i < n
        invariant
            n == entries@.len(),
            forall|k: int| 0 <= k < entries@.len() ==> (#[trigger] entries@[k]).path@.len() > 0,
            i <= n,
            forall|j: int| 0 <= j < i ==> !(#[trigger] entries@[j]).is_dir,
        decreases n - i,
    {
        if entries[i].is_dir {
            let joined = crate::paths::join_components(&entries[i].path);
            let mut target = String::from_str("/ext/update");
            if joined.as_str().unicode_len() > 0 {
                target.append("/");
                target.append(joined.as_str());
                proof {
                    reveal_strlit("/");
                    assert("/"@ =~= seq!['/']);
                }
            }
            return Some(target);
        }
        i = i + 1;
    }
    None
}

} // verus!
