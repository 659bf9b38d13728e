//! Upload orchestration decisions: choosing the sync strategy, translating
//! git change sets into ops, counting ops for the confirmation prompt, and
//! resolving each op against the current stream context when the transport
//! shell executes it.

use vstd::prelude::*;

use crate::diff::{op_path, Op};
use crate::ids::{spec_hyphenated_chars, uuid_hyphenated};
use crate::paths::{join_components, spec_join};
use crate::sync_file::{Repo, SyncFile};
use crate::tree::{is_prefix_of, PathV};

verus! {

/// Number of `Copy` ops.
pub open spec fn count_copies(ops: Seq<Op>) -> int
    decreases ops.len(),
{
    if ops.len() == 0 {
        0
    } else {
        count_copies(ops.drop_last()) + if ops.last() is Copy {
            1int
        } else {
            0int
        }
    }
}

/// Number of `CreateDir` ops.
pub open spec fn count_create_dirs(ops: Seq<Op>) -> int
    decreases ops.len(),
{
    if ops.len() == 0 {
        0
    } else {
        count_create_dirs(ops.drop_last()) + if ops.last() is CreateDir {
            1int
        } else {
            0int
        }
    }
}

/// Number of `Remove` ops.
pub open spec fn count_removes(ops: Seq<Op>) -> int
    decreases ops.len(),
{
    if ops.len() == 0 {
        0
    } else {
        count_removes(ops.drop_last()) + if ops.last() is Remove {
            1int
        } else {
            0int
        }
    }
}

/// Counts the mutation ops of a stream: copies, directory creations and
/// removes. A stream whose counts are all zero is a no-op run: the
/// sync-state file is written and nothing is prompted.
pub fn count_ops(ops: &Vec<Op>) -> (r: (usize, usize, usize))
    ensures
        r.0 == count_copies(ops@),
        r.1 == count_create_dirs(ops@),
        r.2 == count_removes(ops@),
        r.0 <= ops@.len() && r.1 <= ops@.len() && r.2 <= ops@.len(),
{
    let n = ops.len();
    let mut copy: usize = 0;
    let mut dir: usize = 0;
    let mut remove: usize = 0;
    let mut i: usize = 0;
    while i < n
        invariant
            n == ops@.len(),
            i <= n,
            copy == count_copies(ops@.take(i as int)),
            dir == count_create_dirs(ops@.take(i as int)),
            remove == count_removes(ops@.take(i as int)),
            copy <= i && dir <= i && remove <= i,
        decreases n - i,
    {
        proof {
            assert(ops@.take(i + 1).drop_last() =~= ops@.take(i as int));
            assert(ops@.take(i + 1).last() == ops@[i as int]);
        }
        match &ops[i] {
            Op::Copy(_) => {
                copy = copy + 1;
            },
            Op::CreateDir(_) => {
                dir = dir + 1;
            },
            Op::Remove(_) => {
                remove = remove + 1;
            },
            _ => {},
        }
        i = i + 1;
    }
    proof {
        assert(ops@.take(n as int) =~= ops@);
    }
    (copy, dir, remove)
}

/// Appends the `(uuid, head commit)` record for one repository to the
/// pending sync state; it is written to the device only after a successful
/// or no-op run.
pub fn record_sync_entry(sync: &mut SyncFile, uuid: &Vec<u8>, head: &Vec<u8>)
    requires
        uuid@.len() == 16,
        head@.len() == 20,
    ensures
        final(sync).repositories@.len() == old(sync).repositories@.len() + 1,
        final(sync).repositories@.subrange(0, old(sync).repositories@.len() as int) == old(
            sync,
        ).repositories@,
        final(sync).repositories@.last().uuid@ == uuid@,
        final(sync).repositories@.last().hash@ == head@,
        old(sync).wf() ==> final(sync).wf(),
{
    let entry = Repo { uuid: crate::sync_file::bytes_dup(uuid), hash: crate::sync_file::bytes_dup(head) };
    let ghost pre = sync.repositories@;
    sync.repositories.push(entry);
    proof {
        assert(sync.repositories@.subrange(0, pre.len() as int) =~= pre);
    }
}

/// The store-relative directory of a repository clone or firmware cache:
/// `store/<hyphenated uuid>`.
pub fn store_rel_path(uuid: &Vec<u8>) -> (r: String)
    requires
        uuid@.len() == 16,
    ensures
        r@ == "store/"@ + spec_hyphenated_chars(uuid@),
{
    let mut r = String::from_str("store/");
    let tail = uuid_hyphenated(uuid);
    r.append(tail.as_str());
    r
}

/// One entry of a git tree-to-tree change set, as plain values: the kind,
/// the repository-relative location already split into components, and
/// whether the mapping's pathspec includes it. Rewrites are disabled by
/// contract, so additions, deletions and modifications are all the kinds
/// there are.
#[derive(Debug)]
pub struct Change {
    pub kind: ChangeKind,
    pub location: Vec<String>,
    pub included: bool,
}

#[derive(Debug, Clone, Copy, PartialEq, Eq, Structural)]
pub enum ChangeKind {
    Addition,
    Deletion,
    Modification,
}

/// Whether a change contributes an op for a mapping whose longest common
/// directory is `lcd`: it must be included by the pathspec and lie under
/// the LCD.
pub open spec fn change_accepted(c: Change, lcd: PathV) -> bool {
    c.included && is_prefix_of(lcd, c.location.deep_view())
}

/// The op kinds and LCD-relative paths that a change list translates to:
/// additions and modifications copy, deletions remove.
pub open spec fn spec_translated(changes: Seq<Change>, lcd: PathV) -> Seq<(bool, PathV)>
    decreases changes.len(),
{
    if changes.len() == 0 {
        Seq::empty()
    } else {
        spec_translated(changes.drop_last(), lcd) + if change_accepted(changes.last(), lcd) {
            seq![
                (
                    !(changes.last().kind is Deletion),
                    changes.last().location.deep_view().subrange(
                        lcd.len() as int,
                        changes.last().location.deep_view().len() as int,
                    ),
                ),
            ]
        } else {
            Seq::empty()
        }
    }
}

/// Translates a filtered git change set into ops scoped by a mapping:
/// each included change under the LCD becomes one `Copy` (addition or
/// modification) or `Remove` (deletion) at its LCD-relative path, in
/// change order.
pub fn translate_changes(changes: &Vec<Change>, lcd: &Vec<String>, ops: &mut Vec<Op>)
    ensures
        final(ops)@.len() == old(ops)@.len() + spec_translated(changes@, lcd.deep_view()).len(),
        final(ops)@.subrange(0, old(ops)@.len() as int) == old(ops)@,
        forall|c: int|
            0 <= c < spec_translated(changes@, lcd.deep_view()).len() ==> {
                let e = spec_translated(changes@, lcd.deep_view())[c];
                let op = #[trigger] final(ops)@[old(ops)@.len() + c];
                &&& (e.0 ==> op is Copy)
                &&& (!e.0 ==> op is Remove)
                &&& op_path(op) == Some(e.1)
            },
{
    let n = changes.len();
    let mut i: usize = 0;
    proof {
        assert(ops@.subrange(0, old(ops)@.len() as int) =~= old(ops)@);
        assert(spec_translated(changes@.take(0), lcd.deep_view()) =~= Seq::<(bool, PathV)>::empty());
        assert(changes@.take(0) =~= Seq::<Change>::empty());
    }
    while i < n
        invariant
            n == changes@.len(),
            i <= n,
            ops@.len() == old(ops)@.len() + spec_translated(
                changes@.take(i as int),
                lcd.deep_view(),
            ).len(),
            ops@.subrange(0, old(ops)@.len() as int) == old(ops)@,
            forall|c: int|
                0 <= c < spec_translated(changes@.take(i as int), lcd.deep_view()).len() ==> {
                    let e = spec_translated(changes@.take(i as int), lcd.deep_view())[c];
                    let op = #[trigger] ops@[old(ops)@.len() + c];
                    &&& (e.0 ==> op is Copy)
                    &&& (!e.0 ==> op is Remove)
                    &&& op_path(op) == Some(e.1)
                },
        decreases n - i,
    {
        let ghost pre_sel = spec_translated(changes@.take(i as int), lcd.deep_view());
        let ghost pre_ops = ops@;
        proof {
            assert(changes@.take(i + 1).drop_last() =~= changes@.take(i as int));
            assert(changes@.take(i + 1).last() == changes@[i as int]);
        }
        let change = &changes[i];
        if change.included {
            match crate::paths::strip_prefix_components(lcd, &change.location) {
                Some(rel) => {
                    proof {
                        assert(change_accepted(changes@[i as int], lcd.deep_view()));
                        assert(rel.deep_view() =~= changes@[i as int].location.deep_view().subrange(
                            lcd.deep_view().len() as int,
                            changes@[i as int].location.deep_view().len() as int,
                        ));
                    }
                    let is_delete = match change.kind {
                        ChangeKind::Deletion => true,
                        _ => false,
                    };
                    if is_delete {
                        ops.push(Op::Remove(rel));
                    } else {
                        ops.push(Op::Copy(rel));
                    }
                    proof {
                        assert(ops@.subrange(0, old(ops)@.len() as int) =~= old(ops)@) by {
                            assert forall|a: int| 0 <= a < old(ops)@.len() implies ops@.subrange(
                                0,
                                old(ops)@.len() as int,
                            )[a] == old(ops)@[a] by {
                                assert(pre_ops.subrange(0, old(ops)@.len() as int)[a]
                                    == pre_ops[a]);
                            }
                        }
                        assert(spec_translated(changes@.take(i + 1), lcd.deep_view())
                            =~= pre_sel.push(
                            (
                                !(changes@[i as int].kind is Deletion),
                                changes@[i as int].location.deep_view().subrange(
                                    lcd.deep_view().len() as int,
                                    changes@[i as int].location.deep_view().len() as int,
                                ),
                            ),
                        ));
                    }
                },
                None => {
                    proof {
                        assert(!change_accepted(changes@[i as int], lcd.deep_view()));
                        assert(spec_translated(changes@.take(i + 1), lcd.deep_view())
                            =~= pre_sel);
                    }
                },
            }
        } else {
            proof {
                assert(!change_accepted(changes@[i as int], lcd.deep_view()));
                assert(spec_translated(changes@.take(i + 1), lcd.deep_view()) =~= pre_sel);
            }
        }
        i = i + 1;
    }
    proof {
        assert(changes@.take(n as int) =~= changes@);
    }
}

/// The execution context installed by the delimiter ops: the local clone
/// root, and the mapping's local subpath and remote destination.
#[derive(Debug)]
pub struct ExecState {
    pub repo: String,
    pub map_local: String,
    pub map_remote: String,
}

/// One transport action resolved from a mutation op.
#[derive(Debug, PartialEq, Eq)]
pub enum Action {
    /// Read the file at `from` on the host and write it at `to` on the
    /// device.
    CopyFile { from: String, to: String },
    /// Create the directory at `to` on the device.
    MakeDir { to: String },
    /// Recursively remove `to` on the device.
    RemoveDir { to: String },
}

/// `b` appended under `a` with a single separator; an empty `b` leaves `a`
/// as it is.
pub open spec fn join_under(a: Seq<char>, b: Seq<char>) -> Seq<char> {
    if b.len() == 0 {
        a
    } else {
        a + seq!['/'] + b
    }
}

/// Appends `b` under `a` with a single separator.
fn push_under(a: &mut String, b: &str)
    ensures
        final(a)@ == join_under(old(a)@, b@),
{
    if b.unicode_len() > 0 {
        a.append("/");
        a.append(b);
        proof {
            reveal_strlit("/");
            assert("/"@ =~= seq!['/']);
        }
    }
}

impl ExecState {
    /// A fresh context with empty roots.
    pub fn new() -> (r: ExecState)
        ensures
            r.repo@.len() == 0,
            r.map_local@.len() == 0,
            r.map_remote@.len() == 0,
    {
        ExecState {
            repo: String::new(),
            map_local: String::new(),
            map_remote: String::new(),
        }
    }
}

/// Resolves one op against the stream context: delimiters update the
/// context and yield no action; mutations yield the transport action with
/// full host and device paths.
pub fn exec_step(state: &mut ExecState, op: &Op) -> (r: Option<Action>)
    ensures
        (match op {
            Op::Repo(p) => {
                &&& final(state).repo@ == p@
                &&& final(state).map_local@ == old(state).map_local@
                &&& final(state).map_remote@ == old(state).map_remote@
                &&& r is None
            },
            Op::Mapping(l, d) => {
                &&& final(state).repo@ == old(state).repo@
                &&& final(state).map_local@ == l@
                &&& final(state).map_remote@ == d@
                &&& r is None
            },
            Op::Copy(rel) => {
                &&& *final(state) == *old(state)
                &&& r matches Some(Action::CopyFile { from, to }) && from@ == join_under(
                    join_under(old(state).repo@, old(state).map_local@),
                    spec_join(rel.deep_view()),
                ) && to@ == join_under(old(state).map_remote@, spec_join(rel.deep_view()))
            },
            Op::CreateDir(rel) => {
                &&& *final(state) == *old(state)
                &&& r matches Some(Action::MakeDir { to }) && to@ == join_under(
                    old(state).map_remote@,
                    spec_join(rel.deep_view()),
                )
            },
            Op::Remove(rel) => {
                &&& *final(state) == *old(state)
                &&& r matches Some(Action::RemoveDir { to }) && to@ == join_under(
                    old(state).map_remote@,
                    spec_join(rel.deep_view()),
                )
            },
        }),
{
    match op {
        Op::Repo(p) => {
            state.repo = p.clone();
            None
        },
        Op::Mapping(l, d) => {
            state.map_local = l.clone();
            state.map_remote = d.clone();
            None
        },
        Op::Copy(rel) => {
            let joined = join_components(rel);
            let mut from = state.repo.clone();
            push_under(&mut from, state.map_local.as_str());
            push_under(&mut from, joined.as_str());
            let mut to = state.map_remote.clone();
            push_under(&mut to, joined.as_str());
            Some(Action::CopyFile { from, to })
        },
        Op::CreateDir(rel) => {
            let joined = join_components(rel);
            let mut to = state.map_remote.clone();
            push_under(&mut to, joined.as_str());
            Some(Action::MakeDir { to })
        },
        Op::Remove(rel) => {
            let joined = join_components(rel);
            let mut to = state.map_remote.clone();
            push_under(&mut to, joined.as_str());
            Some(Action::RemoveDir { to })
        },
    }
}

} // verus!
