//! The walking diff engine: three ordered passes that compute the op
//! sequence transforming the remote tree into the local tree.
//!
//! The prune pass removes remote-only subtrees (one `Remove` per subtree
//! root) and records every matched pair of nodes. The creation pass emits
//! `CreateDir` and `Copy` for local-only subtrees, parents before
//! descendants. The update pass asks an equality oracle about each matched
//! file and emits `Copy` where the oracle reports a difference.
//!
//! The contracts state, per emitted op, that it changes the simulated
//! remote (a `Remove` targets a remote-only path, a `CreateDir` a missing
//! local directory, a `Copy` a local file that is missing or different),
//! and that removes lead the stream while every `CreateDir` precedes the
//! ops under it.

use vstd::prelude::*;

use crate::tree::{
    contains_path, find_in_children, is_dir_path, is_file_path, is_prefix_of,
    is_strict_prefix_of, lemma_find_in_range, lemma_find_value, lemma_prefix_contained,
    lemma_resolve_in_range, lemma_resolve_step, node_wf, path_dup, path_push, resolve, tree_wf,
    NodeV, PathV, RemoteTree, Tree,
};

verus! {

/// One remote-side mutation or stream delimiter. Paths are relative
/// component lists; delimiters install the context for subsequent ops.
#[derive(Debug, Clone, PartialEq, Eq)]
pub enum Op {
    /// Declares the local clone root that following ops read from.
    Repo(String),
    /// Declares the local subpath to strip and the remote destination root.
    Mapping(String, String),
    /// Copy the file at the path from local to remote.
    Copy(Vec<String>),
    /// Create the directory at the path on the remote.
    CreateDir(Vec<String>),
    /// Recursively remove the path on the remote.
    Remove(Vec<String>),
}

/// The target path of a mutation op; delimiters have none.
pub open spec fn op_path(op: Op) -> Option<PathV> {
    match op {
        Op::Copy(p) => Some(p.deep_view()),
        Op::CreateDir(p) => Some(p.deep_view()),
        Op::Remove(p) => Some(p.deep_view()),
        _ => None,
    }
}

/// `new` extends `old`: the old elements stand unchanged at the front.
pub open spec fn seq_extends<T>(longer: Seq<T>, shorter: Seq<T>) -> bool {
    shorter.len() <= longer.len() && longer.subrange(0, shorter.len() as int) == shorter
}

/// Extension is transitive.
pub proof fn lemma_extends_trans<T>(a: Seq<T>, b: Seq<T>, c: Seq<T>)
    requires
        seq_extends(c, b),
        seq_extends(b, a),
    ensures
        seq_extends(c, a),
{
    assert forall|i: int| 0 <= i < a.len() implies c.subrange(0, a.len() as int)[i] == a[i] by {
        assert(c.subrange(0, b.len() as int)[i] == c[i]);
        assert(b.subrange(0, a.len() as int)[i] == b[i]);
    }
    assert(c.subrange(0, a.len() as int) =~= a);
}

/// An element of the unchanged front is the old element.
pub proof fn lemma_extends_index<T>(longer: Seq<T>, shorter: Seq<T>, a: int)
    requires
        seq_extends(longer, shorter),
        0 <= a < shorter.len(),
    ensures
        longer[a] == shorter[a],
{
    assert(longer.subrange(0, shorter.len() as int)[a] == longer[a]);
}

/// The arena index of the parent of the node that `p` resolves to (the
/// root is its own parent).
pub open spec fn remote_parent_of(t: Seq<NodeV>, p: PathV) -> int {
    if p.len() == 0 {
        0
    } else {
        resolve(t, 0, p.subrange(0, p.len() - 1))->Some_0
    }
}

/// The size recorded at the node that `p` resolves to.
pub open spec fn local_size_at(t: Seq<NodeV>, p: PathV) -> Option<u32> {
    match resolve(t, 0, p) {
        Some(i) => t[i].size,
        None => None,
    }
}

/// A matched pair recorded by the prune pass for the update pass.
#[derive(Debug)]
pub struct Match {
    /// Path of the pair, relative to both roots.
    pub path: Vec<String>,
    /// Arena index in the local tree.
    pub local_idx: usize,
    /// Arena index in the remote tree.
    pub remote_idx: usize,
    /// Arena index of the remote node's parent, for batched hash lookups.
    pub remote_parent: usize,
}

/// A recorded match resolves in both trees, to its recorded indices.
pub open spec fn match_ok(local: Seq<NodeV>, remote: Seq<NodeV>, m: Match) -> bool {
    let q = m.path.deep_view();
    &&& resolve(local, 0, q) == Some(m.local_idx as int)
    &&& resolve(remote, 0, q) == Some(m.remote_idx as int)
    &&& remote_parent_of(remote, q) == m.remote_parent as int
}

/// The equality oracle failed (a read or transport error in the caller's
/// implementation).
#[derive(Debug, Clone, Copy, PartialEq, Eq)]
pub struct OracleError;

/// The equality oracle of the update pass. An implementation answers
/// whether the file at a matched path differs between local and remote;
/// its answer is a function of the question alone and survives the
/// mutation of any internal cache.
pub trait DiffFn: Sized {
    /// The oracle's answer, as a function of the question.
    spec fn verdict(&self, path: PathV, size: Option<u32>, remote_idx: int, remote_parent: int)
        -> bool;

    /// Asks the oracle; a cache inside `self` may change, the answers may
    /// not.
    fn different(
        &mut self,
        path: &Vec<String>,
        size: Option<u32>,
        remote_idx: usize,
        remote_parent: usize,
    ) -> (r: Result<bool, OracleError>)
        ensures
            forall|p: PathV, s: Option<u32>, i: int, j: int|
                final(self).verdict(p, s, i, j) == old(self).verdict(p, s, i, j),
            r matches Ok(b) ==> b == old(self).verdict(
                path.deep_view(),
                size,
                remote_idx as int,
                remote_parent as int,
            ),
    ;
}

/// An oracle answering from a fixed table indexed by remote node index;
/// a missing entry reads as "not different".
pub struct TableOracle {
    pub verdicts: Vec<bool>,
}

impl DiffFn for TableOracle {
    open spec fn verdict(&self, path: PathV, size: Option<u32>, remote_idx: int, remote_parent: int)
        -> bool {
        0 <= remote_idx < self.verdicts@.len() && self.verdicts@[remote_idx]
    }

    fn different(
        &mut self,
        path: &Vec<String>,
        size: Option<u32>,
        remote_idx: usize,
        remote_parent: usize,
    ) -> (r: Result<bool, OracleError>) {
        if remote_idx < self.verdicts.len() {
            Ok(self.verdicts[remote_idx])
        } else {
            Ok(false)
        }
    }
}

/// Per-op soundness: applying the op to the simulated remote changes it
/// toward the local tree.
pub open spec fn diff_op_sound<F: DiffFn>(
    local: Seq<NodeV>,
    remote: Seq<NodeV>,
    oracle: F,
    op: Op,
) -> bool {
    match op {
        Op::Remove(p) => {
            let q = p.deep_view();
            &&& q.len() > 0
            &&& contains_path(remote, q)
            &&& !contains_path(local, q)
            &&& contains_path(local, q.subrange(0, q.len() - 1))
            &&& contains_path(remote, q.subrange(0, q.len() - 1))
        },
        Op::CreateDir(p) => {
            let q = p.deep_view();
            &&& q.len() > 0
            &&& is_dir_path(local, q)
            &&& !contains_path(remote, q)
        },
        Op::Copy(p) => {
            let q = p.deep_view();
            &&& q.len() > 0
            &&& is_file_path(local, q)
            &&& (contains_path(remote, q) ==> oracle.verdict(
                q,
                local_size_at(local, q),
                resolve(remote, 0, q)->Some_0,
                remote_parent_of(remote, q),
            ))
        },
        _ => false,
    }
}

/// A `Remove` in the segment from `lo` on is preceded only by removes.
pub open spec fn removes_lead(ops: Seq<Op>, lo: int) -> bool {
    forall|a: int, b: int|
        lo <= a < b < ops.len() && (#[trigger] ops[b]) is Remove ==> (#[trigger] ops[a]) is Remove
}

/// Every `CreateDir` in the segment from `lo` on precedes every op in that
/// segment whose path lies strictly under it.
pub open spec fn create_before_descendants(ops: Seq<Op>, lo: int) -> bool {
    forall|a: int, b: int|
        lo <= a < ops.len() && lo <= b < ops.len() && (#[trigger] ops[a]) is CreateDir && op_path(
            #[trigger] ops[b],
        ) is Some && is_strict_prefix_of(op_path(ops[a])->Some_0, op_path(ops[b])->Some_0) ==> a
            < b
}

/// Shape of an op from the creation pass: a `CreateDir` of a local
/// directory or a `Copy` of a local file.
pub open spec fn create_op_shape(local: Seq<NodeV>, op: Op) -> bool {
    match op {
        Op::CreateDir(p) => p.deep_view().len() > 0 && is_dir_path(local, p.deep_view()),
        Op::Copy(p) => p.deep_view().len() > 0 && is_file_path(local, p.deep_view()),
        _ => false,
    }
}

/// Prune pass: removes remote-only subtrees and records matched pairs.
#[verifier::rlimit(100)]
fn prune_walk(
    local: &Tree,
    remote: &RemoteTree,
    l_idx: usize,
    r_idx: usize,
    r_parent: usize,
    path: &Vec<String>,
    ops: &mut Vec<Op>,
    matched: &mut Vec<Match>,
)
    requires
        tree_wf(local@),
        tree_wf(remote@),
        l_idx < local@.len(),
        r_idx < remote@.len(),
        resolve(local@, 0, path.deep_view()) == Some(l_idx as int),
        resolve(remote@, 0, path.deep_view()) == Some(r_idx as int),
        r_parent as int == remote_parent_of(remote@, path.deep_view()),
    ensures
        seq_extends(final(ops)@, old(ops)@),
        forall|a: int|
            old(ops)@.len() <= a < final(ops)@.len() ==> {
                let op = #[trigger] final(ops)@[a];
                &&& op is Remove
                &&& op_path(op) matches Some(q)
                &&& contains_path(remote@, q)
                &&& !contains_path(local@, q)
                &&& contains_path(local@, q.subrange(0, q.len() - 1))
                &&& contains_path(remote@, q.subrange(0, q.len() - 1))
                &&& is_strict_prefix_of(path.deep_view(), q)
            },
        seq_extends(final(matched)@, old(matched)@),
        forall|a: int|
            old(matched)@.len() <= a < final(matched)@.len() ==> match_ok(
                local@,
                remote@,
                #[trigger] final(matched)@[a],
            ) && is_prefix_of(path.deep_view(), final(matched)@[a].path.deep_view()),
        forall|q: PathV|
            #![trigger resolve(remote@, 0, q)]
            is_prefix_of(path.deep_view(), q) && resolve(local@, 0, q) is Some && resolve(
                remote@,
                0,
                q,
            ) is Some ==> exists|a: int|
                0 <= a < final(matched)@.len() && (#[trigger] final(matched)@[a]).path.deep_view()
                    == q,
        forall|q: PathV|
            #![trigger resolve(remote@, 0, q)]
            is_prefix_of(path.deep_view(), q) && resolve(remote@, 0, q) is Some && resolve(
                local@,
                0,
                q,
            ) is None ==> exists|a: int|
                old(ops)@.len() <= a < final(ops)@.len() && (op_path(
                    #[trigger] final(ops)@[a],
                ) matches Some(r) && is_prefix_of(r, q)),
        forall|a: int, b: int|
            old(ops)@.len() <= a < b < final(ops)@.len() ==> op_path(#[trigger] final(ops)@[a])
                != op_path(#[trigger] final(ops)@[b]),
        forall|a: int, b: int|
            old(matched)@.len() <= a < b < final(matched)@.len() ==> (
            #[trigger] final(matched)@[a]).path.deep_view() != (
            #[trigger] final(matched)@[b]).path.deep_view(),
    decreases remote@.len() - r_idx,
{
    let ghost pv = path.deep_view();
    let m = Match {
        path: path_dup(path),
        local_idx: l_idx,
        remote_idx: r_idx,
        remote_parent: r_parent,
    };
    matched.push(m);
    proof {
        assert(seq_extends(matched@, old(matched)@)) by {
            assert(matched@.subrange(0, old(matched)@.len() as int) =~= old(matched)@);
        }
        assert(seq_extends(ops@, old(ops)@)) by {
            assert(ops@.subrange(0, old(ops)@.len() as int) =~= old(ops)@);
        }
        assert(is_prefix_of(pv, pv)) by {
            assert(pv.subrange(0, pv.len() as int) =~= pv);
        }
        assert(matched@[matched@.len() - 1].path.deep_view() == pv);
        assert forall|q: PathV|
            #![trigger resolve(remote@, 0, q)]
            is_prefix_of(pv, q) && q.len() == pv.len() implies exists|a: int|
            0 <= a < matched@.len() && (#[trigger] matched@[a]).path.deep_view() == q by {
            assert(q =~= pv);
            assert((matched@[matched@.len() - 1]).path.deep_view() == q);
        }
        assert forall|a: int|
            old(matched)@.len() <= a < matched@.len() implies (
        #[trigger] matched@[a]).path.deep_view() == pv by {
            assert(a == matched@.len() - 1);
        }
    }
    let n = remote.nodes[r_idx].children.len();
    let mut k: usize = 0;
    while k < n
        invariant
            tree_wf(local@),
            tree_wf(remote@),
            l_idx < local@.len(),
            r_idx < remote@.len(),
            pv == path.deep_view(),
            resolve(local@, 0, pv) == Some(l_idx as int),
            resolve(remote@, 0, pv) == Some(r_idx as int),
            n == remote@[r_idx as int].children.len(),
            k <= n,
            seq_extends(ops@, old(ops)@),
            forall|a: int|
                old(ops)@.len() <= a < ops@.len() ==> {
                    let op = #[trigger] ops@[a];
                    &&& op is Remove
                    &&& op_path(op) matches Some(q)
                    &&& contains_path(remote@, q)
                    &&& !contains_path(local@, q)
                    &&& contains_path(local@, q.subrange(0, q.len() - 1))
                    &&& contains_path(remote@, q.subrange(0, q.len() - 1))
                    &&& is_strict_prefix_of(pv, q)
                },
            seq_extends(matched@, old(matched)@),
            forall|a: int|
                old(matched)@.len() <= a < matched@.len() ==> match_ok(
                    local@,
                    remote@,
                    #[trigger] matched@[a],
                ) && is_prefix_of(pv, matched@[a].path.deep_view()),
            forall|q: PathV|
                #![trigger resolve(remote@, 0, q)]
                is_prefix_of(pv, q) && resolve(local@, 0, q) is Some && resolve(
                    remote@,
                    0,
                    q,
                ) is Some && (q.len() == pv.len() || (q.len() > pv.len() && exists|kk: int|
                    0 <= kk < k && q[pv.len() as int] == (
                    #[trigger] remote@[r_idx as int].children[kk]).0)) ==> exists|a: int|
                    0 <= a < matched@.len() && (#[trigger] matched@[a]).path.deep_view() == q,
            forall|q: PathV|
                #![trigger resolve(remote@, 0, q)]
                is_prefix_of(pv, q) && resolve(remote@, 0, q) is Some && resolve(
                    local@,
                    0,
                    q,
                ) is None && (q.len() > pv.len() && exists|kk: int|
                    0 <= kk < k && q[pv.len() as int] == (
                    #[trigger] remote@[r_idx as int].children[kk]).0) ==> exists|a: int|
                    old(ops)@.len() <= a < ops@.len() && (op_path(
                        #[trigger] ops@[a],
                    ) matches Some(r) && is_prefix_of(r, q)),
            forall|a: int|
                old(ops)@.len() <= a < ops@.len() ==> (op_path(#[trigger] ops@[a])->Some_0.len()
                    > pv.len() && exists|kk: int|
                    0 <= kk < k && op_path(ops@[a])->Some_0[pv.len() as int] == (
                    #[trigger] remote@[r_idx as int].children[kk]).0),
            forall|a: int|
                old(matched)@.len() <= a < matched@.len() ==> ((
                #[trigger] matched@[a]).path.deep_view() == pv || (
                matched@[a].path.deep_view().len() > pv.len() && exists|kk: int|
                    0 <= kk < k && matched@[a].path.deep_view()[pv.len() as int] == (
                    #[trigger] remote@[r_idx as int].children[kk]).0)),
            forall|a: int, b: int|
                old(ops)@.len() <= a < b < ops@.len() ==> op_path(#[trigger] ops@[a]) != op_path(
                    #[trigger] ops@[b],
                ),
            forall|a: int, b: int|
                old(matched)@.len() <= a < b < matched@.len() ==> (
                #[trigger] matched@[a]).path.deep_view() != (
                #[trigger] matched@[b]).path.deep_view(),
        decreases n - k,
    {
        let ghost ops_pre = ops@;
        let ghost matched_pre = matched@;
        let name = &remote.nodes[r_idx].children[k].0;
        let r_child = remote.nodes[r_idx].children[k].1;
        proof {
            assert(remote@[r_idx as int].children[k as int] == (name@, r_child as int));
            assert(node_wf(remote@, r_idx as int));
            lemma_find_value(remote@[r_idx as int].children, k as int);
            lemma_find_in_range(remote@, r_idx as int, name@);
        }
        let child_path = path_push(path, name);
        proof {
            lemma_resolve_step(remote@, pv, r_idx as int, name@);
            assert(resolve(remote@, 0, child_path.deep_view()) == Some(r_child as int));
            assert(is_strict_prefix_of(pv, child_path.deep_view())) by {
                assert(child_path.deep_view().subrange(0, pv.len() as int) =~= pv);
            }
        }
        match local.find_child_by_name(l_idx, name) {
            Some(l_child) => {
                proof {
                    lemma_resolve_step(local@, pv, l_idx as int, name@);
                    lemma_find_in_range(local@, l_idx as int, name@);
                    assert(resolve(local@, 0, child_path.deep_view()) == Some(l_child as int));
                    assert(child_path.deep_view().subrange(
                        0,
                        child_path.deep_view().len() - 1,
                    ) =~= pv);
                    assert(remote_parent_of(remote@, child_path.deep_view()) == r_idx as int);
                }
                prune_walk(local, remote, l_child, r_child, r_idx, &child_path, ops, matched);
                proof {
                    lemma_extends_trans(old(ops)@, ops_pre, ops@);
                    lemma_extends_trans(old(matched)@, matched_pre, matched@);
                    assert forall|a: int| old(ops)@.len() <= a < ops@.len() implies {
                        let op = #[trigger] ops@[a];
                        &&& op is Remove
                        &&& op_path(op) matches Some(q)
                        &&& contains_path(remote@, q)
                        &&& !contains_path(local@, q)
                        &&& contains_path(local@, q.subrange(0, q.len() - 1))
                        &&& contains_path(remote@, q.subrange(0, q.len() - 1))
                        &&& is_strict_prefix_of(pv, q)
                    } by {
                        if a < ops_pre.len() {
                            lemma_extends_index(ops@, ops_pre, a);
                        } else {
                            let q = op_path(ops@[a])->Some_0;
                            assert(is_strict_prefix_of(child_path.deep_view(), q));
                            assert(q.subrange(0, pv.len() as int) =~= pv) by {
                                assert forall|i: int| 0 <= i < pv.len() implies q.subrange(
                                    0,
                                    pv.len() as int,
                                )[i] == pv[i] by {
                                    assert(q.subrange(
                                        0,
                                        child_path.deep_view().len() as int,
                                    )[i] == q[i]);
                                    assert(child_path.deep_view()[i] == pv[i]);
                                }
                            }
                        }
                    }
                    assert forall|a: int| old(matched)@.len() <= a < matched@.len() implies
                        match_ok(local@, remote@, #[trigger] matched@[a]) && is_prefix_of(
                        pv,
                        matched@[a].path.deep_view(),
                    ) by {
                        if a < matched_pre.len() {
                            lemma_extends_index(matched@, matched_pre, a);
                        } else {
                            let q = matched@[a].path.deep_view();
                            assert(is_prefix_of(child_path.deep_view(), q));
                            assert(q.subrange(0, pv.len() as int) =~= pv) by {
                                assert forall|i: int| 0 <= i < pv.len() implies q.subrange(
                                    0,
                                    pv.len() as int,
                                )[i] == pv[i] by {
                                    assert(q.subrange(
                                        0,
                                        child_path.deep_view().len() as int,
                                    )[i] == q[i]);
                                    assert(child_path.deep_view()[i] == pv[i]);
                                }
                            }
                        }
                    }
                    let ghost cpv = child_path.deep_view();
                    assert forall|q: PathV|
                        #![trigger resolve(remote@, 0, q)]
                        is_prefix_of(pv, q) && resolve(local@, 0, q) is Some && resolve(
                            remote@,
                            0,
                            q,
                        ) is Some && (q.len() == pv.len() || (q.len() > pv.len() && exists|kk: int|
                            0 <= kk < k + 1 && q[pv.len() as int] == (
                            #[trigger] remote@[r_idx as int].children[kk]).0)) implies exists|
                        a: int,
                    |
                        0 <= a < matched@.len() && (#[trigger] matched@[a]).path.deep_view()
                            == q by {
                        let covered_before = q.len() == pv.len() || (q.len() > pv.len() && exists|
                            kk: int,
                        |
                            0 <= kk < k && q[pv.len() as int] == (
                            #[trigger] remote@[r_idx as int].children[kk]).0);
                        if covered_before {
                            let a0 = choose|a: int|
                                0 <= a < matched_pre.len() && (
                                #[trigger] matched_pre[a]).path.deep_view() == q;
                            lemma_extends_index(matched@, matched_pre, a0);
                            assert(0 <= a0 < matched@.len() && matched@[a0].path.deep_view() == q);
                        } else {
                            assert(q.len() > pv.len() && q[pv.len() as int] == name@);
                            assert(cpv =~= pv.push(name@));
                            crate::tree::lemma_prefix_extend(pv, name@, q);
                        }
                    }
                    assert forall|q: PathV|
                        #![trigger resolve(remote@, 0, q)]
                        is_prefix_of(pv, q) && resolve(remote@, 0, q) is Some && resolve(
                            local@,
                            0,
                            q,
                        ) is None && (q.len() > pv.len() && exists|kk: int|
                            0 <= kk < k + 1 && q[pv.len() as int] == (
                            #[trigger] remote@[r_idx as int].children[kk]).0) implies exists|
                        a: int,
                    |
                        old(ops)@.len() <= a < ops@.len() && (op_path(
                            #[trigger] ops@[a],
                        ) matches Some(r) && is_prefix_of(r, q)) by {
                        let covered_before = q.len() > pv.len() && exists|kk: int|
                            0 <= kk < k && q[pv.len() as int] == (
                            #[trigger] remote@[r_idx as int].children[kk]).0;
                        if covered_before {
                            let a0 = choose|a: int|
                                old(ops)@.len() <= a < ops_pre.len() && (op_path(
                                    #[trigger] ops_pre[a],
                                ) matches Some(r) && is_prefix_of(r, q));
                            lemma_extends_index(ops@, ops_pre, a0);
                            assert(old(ops)@.len() <= a0 < ops@.len() && (op_path(ops@[a0])
                                matches Some(r) && is_prefix_of(r, q)));
                        } else {
                            assert(q.len() > pv.len() && q[pv.len() as int] == name@);
                            assert(cpv =~= pv.push(name@));
                            crate::tree::lemma_prefix_extend(pv, name@, q);
                        }
                    }
                    assert forall|a: int|
                        old(ops)@.len() <= a < ops@.len() implies (op_path(
                        #[trigger] ops@[a],
                    )->Some_0.len() > pv.len() && exists|kk: int|
                        0 <= kk < k + 1 && op_path(ops@[a])->Some_0[pv.len() as int] == (
                        #[trigger] remote@[r_idx as int].children[kk]).0) by {
                        if a < ops_pre.len() {
                            lemma_extends_index(ops@, ops_pre, a);
                            let q = op_path(ops@[a])->Some_0;
                            let kk = choose|kk: int|
                                0 <= kk < k && q[pv.len() as int] == (
                                #[trigger] remote@[r_idx as int].children[kk]).0;
                            assert(0 <= kk < k + 1 && q[pv.len() as int] == remote@[r_idx as int].children[kk].0);
                        } else {
                            let q = op_path(ops@[a])->Some_0;
                            assert(is_strict_prefix_of(cpv, q));
                            assert(q.subrange(0, cpv.len() as int)[pv.len() as int] == q[pv.len() as int]);
                            assert(q[pv.len() as int] == cpv[pv.len() as int]);
                            assert(cpv[pv.len() as int] == name@);
                            assert(0 <= k < k + 1 && q[pv.len() as int] == remote@[r_idx as int].children[k as int].0);
                        }
                    }
                    assert forall|a: int|
                        old(matched)@.len() <= a < matched@.len() implies ((
                    #[trigger] matched@[a]).path.deep_view() == pv || (
                    matched@[a].path.deep_view().len() > pv.len() && exists|kk: int|
                        0 <= kk < k + 1 && matched@[a].path.deep_view()[pv.len() as int] == (
                        #[trigger] remote@[r_idx as int].children[kk]).0)) by {
                        if a < matched_pre.len() {
                            lemma_extends_index(matched@, matched_pre, a);
                            let q = matched@[a].path.deep_view();
                            if q != pv {
                                let kk = choose|kk: int|
                                    0 <= kk < k && q[pv.len() as int] == (
                                    #[trigger] remote@[r_idx as int].children[kk]).0;
                                assert(0 <= kk < k + 1 && q[pv.len() as int] == remote@[r_idx as int].children[kk].0);
                            }
                        } else {
                            let q = matched@[a].path.deep_view();
                            assert(is_prefix_of(cpv, q));
                            assert(q.subrange(0, cpv.len() as int)[pv.len() as int] == q[pv.len() as int]);
                            assert(q[pv.len() as int] == cpv[pv.len() as int]);
                            assert(cpv[pv.len() as int] == name@);
                            assert(q.len() >= cpv.len());
                            assert(q != pv);
                            assert(0 <= k < k + 1 && q[pv.len() as int] == remote@[r_idx as int].children[k as int].0);
                        }
                    }
                    assert forall|a: int, b: int|
                        old(ops)@.len() <= a < b < ops@.len() implies op_path(
                        #[trigger] ops@[a],
                    ) != op_path(#[trigger] ops@[b]) by {
                        if b < ops_pre.len() {
                            lemma_extends_index(ops@, ops_pre, a);
                            lemma_extends_index(ops@, ops_pre, b);
                        } else if a >= ops_pre.len() {
                        } else {
                            lemma_extends_index(ops@, ops_pre, a);
                            let qa = op_path(ops@[a])->Some_0;
                            let qb = op_path(ops@[b])->Some_0;
                            let kk = choose|kk: int|
                                0 <= kk < k && qa[pv.len() as int] == (
                                #[trigger] remote@[r_idx as int].children[kk]).0;
                            assert(is_strict_prefix_of(cpv, qb));
                            assert(qb.subrange(0, cpv.len() as int)[pv.len() as int] == qb[pv.len() as int]);
                            assert(qb[pv.len() as int] == cpv[pv.len() as int]);
                            assert(cpv[pv.len() as int] == name@);
                            assert(remote@[r_idx as int].children[kk].0 != remote@[r_idx as int].children[k as int].0);
                            if qa == qb {
                                assert(qa[pv.len() as int] == qb[pv.len() as int]);
                                assert(false);
                            }
                            assert(qa != qb);
                        }
                    }
                    assert forall|a: int, b: int|
                        old(matched)@.len() <= a < b < matched@.len() implies (
                    #[trigger] matched@[a]).path.deep_view() != (
                    #[trigger] matched@[b]).path.deep_view() by {
                        if b < matched_pre.len() {
                            lemma_extends_index(matched@, matched_pre, a);
                            lemma_extends_index(matched@, matched_pre, b);
                        } else if a >= matched_pre.len() {
                        } else {
                            lemma_extends_index(matched@, matched_pre, a);
                            let qa = matched@[a].path.deep_view();
                            let qb = matched@[b].path.deep_view();
                            assert(is_prefix_of(cpv, qb));
                            assert(qb.subrange(0, cpv.len() as int)[pv.len() as int] == qb[pv.len() as int]);
                            assert(qb[pv.len() as int] == cpv[pv.len() as int]);
                            assert(cpv[pv.len() as int] == name@);
                            assert(qb.len() >= cpv.len());
                            if qa == pv {
                                assert(qa.len() < qb.len());
                            } else {
                                let kk = choose|kk: int|
                                    0 <= kk < k && qa[pv.len() as int] == (
                                    #[trigger] remote@[r_idx as int].children[kk]).0;
                                assert(remote@[r_idx as int].children[kk].0 != remote@[r_idx as int].children[k as int].0);
                                if qa == qb {
                                    assert(qa[pv.len() as int] == qb[pv.len() as int]);
                                    assert(false);
                                }
                            }
                            assert(qa != qb);
                        }
                    }
                }
            },
            None => {
                proof {
                    lemma_resolve_step(local@, pv, l_idx as int, name@);
                    assert(resolve(local@, 0, child_path.deep_view()) is None);
                }
                let ghost cpv = child_path.deep_view();
                ops.push(Op::Remove(child_path));
                proof {
                    assert(seq_extends(ops@, ops_pre)) by {
                        assert(ops@.subrange(0, ops_pre.len() as int) =~= ops_pre);
                    }
                    lemma_extends_trans(old(ops)@, ops_pre, ops@);
                    assert(cpv.subrange(0, cpv.len() - 1) =~= pv);
                    assert forall|a: int| old(ops)@.len() <= a < ops@.len() implies {
                        let op = #[trigger] ops@[a];
                        &&& op is Remove
                        &&& op_path(op) matches Some(q)
                        &&& contains_path(remote@, q)
                        &&& !contains_path(local@, q)
                        &&& contains_path(local@, q.subrange(0, q.len() - 1))
                        &&& contains_path(remote@, q.subrange(0, q.len() - 1))
                        &&& is_strict_prefix_of(pv, q)
                    } by {
                        if a < ops_pre.len() {
                            lemma_extends_index(ops@, ops_pre, a);
                        }
                    }
                    assert forall|q: PathV|
                        #![trigger resolve(remote@, 0, q)]
                        is_prefix_of(pv, q) && resolve(local@, 0, q) is Some && resolve(
                            remote@,
                            0,
                            q,
                        ) is Some && (q.len() == pv.len() || (q.len() > pv.len() && exists|kk: int|
                            0 <= kk < k + 1 && q[pv.len() as int] == (
                            #[trigger] remote@[r_idx as int].children[kk]).0)) implies exists|
                        a: int,
                    |
                        0 <= a < matched@.len() && (#[trigger] matched@[a]).path.deep_view()
                            == q by {
                        let covered_before = q.len() == pv.len() || (q.len() > pv.len() && exists|
                            kk: int,
                        |
                            0 <= kk < k && q[pv.len() as int] == (
                            #[trigger] remote@[r_idx as int].children[kk]).0);
                        if !covered_before {
                            assert(q.len() > pv.len() && q[pv.len() as int] == name@);
                            let rest = q.subrange(pv.len() as int, q.len() as int);
                            assert(q =~= pv + rest);
                            crate::tree::lemma_resolve_concat(local@, 0, pv, rest);
                            assert(rest[0] == name@);
                            assert(resolve(local@, l_idx as int, rest) is Some);
                            assert(false);
                        }
                    }
                    assert forall|q: PathV|
                        #![trigger resolve(remote@, 0, q)]
                        is_prefix_of(pv, q) && resolve(remote@, 0, q) is Some && resolve(
                            local@,
                            0,
                            q,
                        ) is None && (q.len() > pv.len() && exists|kk: int|
                            0 <= kk < k + 1 && q[pv.len() as int] == (
                            #[trigger] remote@[r_idx as int].children[kk]).0) implies exists|
                        a: int,
                    |
                        old(ops)@.len() <= a < ops@.len() && (op_path(
                            #[trigger] ops@[a],
                        ) matches Some(r) && is_prefix_of(r, q)) by {
                        let covered_before = q.len() > pv.len() && exists|kk: int|
                            0 <= kk < k && q[pv.len() as int] == (
                            #[trigger] remote@[r_idx as int].children[kk]).0;
                        if covered_before {
                            let a0 = choose|a: int|
                                old(ops)@.len() <= a < ops_pre.len() && (op_path(
                                    #[trigger] ops_pre[a],
                                ) matches Some(r) && is_prefix_of(r, q));
                            lemma_extends_index(ops@, ops_pre, a0);
                            assert(old(ops)@.len() <= a0 < ops@.len() && (op_path(ops@[a0])
                                matches Some(r) && is_prefix_of(r, q)));
                        } else {
                            assert(q.len() > pv.len() && q[pv.len() as int] == name@);
                            let a0 = ops@.len() - 1;
                            assert(op_path(ops@[a0]) == Some(cpv));
                            assert(cpv =~= pv.push(name@));
                            crate::tree::lemma_prefix_extend(pv, name@, q);
                            assert(old(ops)@.len() <= a0 < ops@.len() && (op_path(ops@[a0])
                                matches Some(r) && is_prefix_of(r, q)));
                        }
                    }
                    assert(cpv[pv.len() as int] == name@);
                    assert forall|a: int|
                        old(ops)@.len() <= a < ops@.len() implies (op_path(
                        #[trigger] ops@[a],
                    )->Some_0.len() > pv.len() && exists|kk: int|
                        0 <= kk < k + 1 && op_path(ops@[a])->Some_0[pv.len() as int] == (
                        #[trigger] remote@[r_idx as int].children[kk]).0) by {
                        if a < ops_pre.len() {
                            lemma_extends_index(ops@, ops_pre, a);
                            let q = op_path(ops@[a])->Some_0;
                            let kk = choose|kk: int|
                                0 <= kk < k && q[pv.len() as int] == (
                                #[trigger] remote@[r_idx as int].children[kk]).0;
                            assert(0 <= kk < k + 1 && q[pv.len() as int] == remote@[r_idx as int].children[kk].0);
                        } else {
                            assert(op_path(ops@[a]) == Some(cpv));
                            assert(0 <= k < k + 1 && cpv[pv.len() as int] == remote@[r_idx as int].children[k as int].0);
                        }
                    }
                    assert forall|a: int|
                        old(matched)@.len() <= a < matched@.len() implies ((
                    #[trigger] matched@[a]).path.deep_view() == pv || (
                    matched@[a].path.deep_view().len() > pv.len() && exists|kk: int|
                        0 <= kk < k + 1 && matched@[a].path.deep_view()[pv.len() as int] == (
                        #[trigger] remote@[r_idx as int].children[kk]).0)) by {
                        let q = matched@[a].path.deep_view();
                        if q != pv {
                            let kk = choose|kk: int|
                                0 <= kk < k && q[pv.len() as int] == (
                                #[trigger] remote@[r_idx as int].children[kk]).0;
                            assert(0 <= kk < k + 1 && q[pv.len() as int] == remote@[r_idx as int].children[kk].0);
                        }
                    }
                    assert forall|a: int, b: int|
                        old(ops)@.len() <= a < b < ops@.len() implies op_path(
                        #[trigger] ops@[a],
                    ) != op_path(#[trigger] ops@[b]) by {
                        if b < ops_pre.len() {
                            lemma_extends_index(ops@, ops_pre, a);
                            lemma_extends_index(ops@, ops_pre, b);
                        } else {
                            lemma_extends_index(ops@, ops_pre, a);
                            let qa = op_path(ops@[a])->Some_0;
                            let kk = choose|kk: int|
                                0 <= kk < k && qa[pv.len() as int] == (
                                #[trigger] remote@[r_idx as int].children[kk]).0;
                            assert(op_path(ops@[b]) == Some(cpv));
                            assert(remote@[r_idx as int].children[kk].0 != remote@[r_idx as int].children[k as int].0);
                            if qa == cpv {
                                assert(qa[pv.len() as int] == cpv[pv.len() as int]);
                                assert(false);
                            }
                        }
                    }
                }
            },
        }
        k = k + 1;
    }
    proof {
        assert forall|q: PathV|
            #![trigger resolve(remote@, 0, q)]
            is_prefix_of(pv, q) && resolve(local@, 0, q) is Some && resolve(
                remote@,
                0,
                q,
            ) is Some implies exists|a: int|
            0 <= a < matched@.len() && (#[trigger] matched@[a]).path.deep_view() == q by {
            if q.len() > pv.len() {
                crate::tree::lemma_resolve_first_component(remote@, pv, q, r_idx as int);
                crate::tree::lemma_find_is_child(
                    remote@[r_idx as int].children,
                    q[pv.len() as int],
                );
                let kk = choose|kk: int|
                    0 <= kk < remote@[r_idx as int].children.len()
                        && #[trigger] remote@[r_idx as int].children[kk] == (
                    q[pv.len() as int],
                    find_in_children(remote@[r_idx as int].children, q[pv.len() as int])->Some_0,
                    );
                assert(0 <= kk < n && q[pv.len() as int] == remote@[r_idx as int].children[kk].0);
            }
        }
        assert forall|q: PathV|
            #![trigger resolve(remote@, 0, q)]
            is_prefix_of(pv, q) && resolve(remote@, 0, q) is Some && resolve(
                local@,
                0,
                q,
            ) is None implies exists|a: int|
            old(ops)@.len() <= a < ops@.len() && (op_path(#[trigger] ops@[a]) matches Some(r)
                && is_prefix_of(r, q)) by {
            if q.len() == pv.len() {
                assert(q =~= pv);
                assert(false);
            } else {
                crate::tree::lemma_resolve_first_component(remote@, pv, q, r_idx as int);
                crate::tree::lemma_find_is_child(
                    remote@[r_idx as int].children,
                    q[pv.len() as int],
                );
                let kk = choose|kk: int|
                    0 <= kk < remote@[r_idx as int].children.len()
                        && #[trigger] remote@[r_idx as int].children[kk] == (
                    q[pv.len() as int],
                    find_in_children(remote@[r_idx as int].children, q[pv.len() as int])->Some_0,
                    );
                assert(0 <= kk < n && q[pv.len() as int] == remote@[r_idx as int].children[kk].0);
            }
        }
    }
}

/// Emits the ops that create the whole local subtree at `path`: its
/// `CreateDir` first, then its descendants, files as `Copy`.
#[verifier::rlimit(100)]
fn emit_create_subtree(local: &Tree, l_idx: usize, path: &Vec<String>, ops: &mut Vec<Op>)
    requires
        tree_wf(local@),
        l_idx < local@.len(),
        resolve(local@, 0, path.deep_view()) == Some(l_idx as int),
        path.deep_view().len() > 0,
    ensures
        seq_extends(final(ops)@, old(ops)@),
        forall|a: int|
            old(ops)@.len() <= a < final(ops)@.len() ==> create_op_shape(
                local@,
                #[trigger] final(ops)@[a],
            ) && is_prefix_of(path.deep_view(), op_path(final(ops)@[a])->Some_0),
        create_before_descendants(final(ops)@, old(ops)@.len() as int),
        forall|q: PathV|
            #![trigger resolve(local@, 0, q)]
            is_prefix_of(path.deep_view(), q) && resolve(local@, 0, q) is Some ==> exists|a: int|
                old(ops)@.len() <= a < final(ops)@.len() && op_path(#[trigger] final(ops)@[a])
                    == Some(q),
        forall|a: int, b: int|
            old(ops)@.len() <= a < b < final(ops)@.len() ==> op_path(#[trigger] final(ops)@[a])
                != op_path(#[trigger] final(ops)@[b]),
    decreases local@.len() - l_idx,
{
    let ghost pv = path.deep_view();
    let ghost old_len = ops@.len() as int;
    let n = local.nodes[l_idx].children.len();
    proof {
        assert(local@[l_idx as int].children.len() == n);
        assert(is_prefix_of(pv, pv)) by {
            assert(pv.subrange(0, pv.len() as int) =~= pv);
        }
    }
    if n == 0 {
        ops.push(Op::Copy(path_dup(path)));
        proof {
            assert(seq_extends(ops@, old(ops)@)) by {
                assert(ops@.subrange(0, old(ops)@.len() as int) =~= old(ops)@);
            }
            assert(op_path(ops@[old_len]) == Some(pv));
            assert(is_file_path(local@, pv));
            assert forall|q: PathV|
                #![trigger resolve(local@, 0, q)]
                is_prefix_of(pv, q) && resolve(local@, 0, q) is Some implies exists|a: int|
                old(ops)@.len() <= a < ops@.len() && op_path(#[trigger] ops@[a]) == Some(q) by {
                if q.len() > pv.len() {
                    crate::tree::lemma_resolve_first_component(local@, pv, q, l_idx as int);
                    assert(false);
                } else {
                    assert(q =~= pv);
                    assert(op_path(ops@[old_len]) == Some(q));
                }
            }
        }
    } else {
        ops.push(Op::CreateDir(path_dup(path)));
        proof {
            assert(seq_extends(ops@, old(ops)@)) by {
                assert(ops@.subrange(0, old(ops)@.len() as int) =~= old(ops)@);
            }
            assert(op_path(ops@[old_len]) == Some(pv));
            assert(is_dir_path(local@, pv));
        }
        let mut k: usize = 0;
        while k < n
            invariant
                tree_wf(local@),
                l_idx < local@.len(),
                pv == path.deep_view(),
                resolve(local@, 0, pv) == Some(l_idx as int),
                pv.len() > 0,
                n == local@[l_idx as int].children.len(),
                k <= n,
                old_len == old(ops)@.len(),
                seq_extends(ops@, old(ops)@),
                ops@.len() > old_len,
                forall|a: int|
                    old_len <= a < ops@.len() ==> create_op_shape(local@, #[trigger] ops@[a])
                        && is_prefix_of(pv, op_path(ops@[a])->Some_0),
                forall|a: int|
                    old_len <= a < ops@.len() ==> (op_path(#[trigger] ops@[a])->Some_0 == pv || (
                    op_path(ops@[a])->Some_0.len() > pv.len() && exists|kk: int|
                        0 <= kk < k && op_path(ops@[a])->Some_0[pv.len() as int] == (
                        #[trigger] local@[l_idx as int].children[kk]).0)),
                create_before_descendants(ops@, old_len),
                op_path(ops@[old_len]) == Some(pv),
                forall|q: PathV|
                    #![trigger resolve(local@, 0, q)]
                    is_prefix_of(pv, q) && resolve(local@, 0, q) is Some && (q.len() > pv.len()
                        && exists|kk: int|
                        0 <= kk < k && q[pv.len() as int] == (
                        #[trigger] local@[l_idx as int].children[kk]).0) ==> exists|a: int|
                        old_len <= a < ops@.len() && op_path(#[trigger] ops@[a]) == Some(q),
                forall|a: int, b: int|
                    old_len <= a < b < ops@.len() ==> op_path(#[trigger] ops@[a]) != op_path(
                        #[trigger] ops@[b],
                    ),
            decreases n - k,
        {
            let ghost ops_pre = ops@;
            let name = &local.nodes[l_idx].children[k].0;
            let l_child = local.nodes[l_idx].children[k].1;
            proof {
                assert(local@[l_idx as int].children[k as int] == (name@, l_child as int));
                assert(node_wf(local@, l_idx as int));
                lemma_find_value(local@[l_idx as int].children, k as int);
                lemma_find_in_range(local@, l_idx as int, name@);
            }
            let child_path = path_push(path, name);
            proof {
                lemma_resolve_step(local@, pv, l_idx as int, name@);
                assert(resolve(local@, 0, child_path.deep_view()) == Some(l_child as int));
            }
            emit_create_subtree(local, l_child, &child_path, ops);
            proof {
                let cpv = child_path.deep_view();
                lemma_extends_trans(old(ops)@, ops_pre, ops@);
                assert forall|a: int| old_len <= a < ops@.len() implies create_op_shape(
                    local@,
                    #[trigger] ops@[a],
                ) && is_prefix_of(pv, op_path(ops@[a])->Some_0) && (op_path(ops@[a])->Some_0 == pv
                    || (op_path(ops@[a])->Some_0.len() > pv.len() && exists|kk: int|
                        0 <= kk < k + 1 && op_path(ops@[a])->Some_0[pv.len() as int] == (
                        #[trigger] local@[l_idx as int].children[kk]).0)) by {
                    if a < ops_pre.len() {
                        lemma_extends_index(ops@, ops_pre, a);
                        if op_path(ops@[a])->Some_0 != pv {
                            let q = op_path(ops@[a])->Some_0;
                            let kk = choose|kk: int|
                                0 <= kk < k && q[pv.len() as int] == (
                                #[trigger] local@[l_idx as int].children[kk]).0;
                            assert(0 <= kk < k + 1 && q[pv.len() as int] == local@[l_idx as int].children[kk].0);
                        }
                    } else {
                        let q = op_path(ops@[a])->Some_0;
                        assert(is_prefix_of(cpv, q));
                        assert(q.subrange(0, pv.len() as int) =~= pv) by {
                            assert forall|i: int| 0 <= i < pv.len() implies q.subrange(
                                0,
                                pv.len() as int,
                            )[i] == pv[i] by {
                                assert(q.subrange(0, cpv.len() as int)[i] == q[i]);
                                assert(cpv[i] == pv[i]);
                            }
                        }
                        assert(q.subrange(0, cpv.len() as int)[pv.len() as int] == q[pv.len() as int]);
                        assert(q[pv.len() as int] == cpv[pv.len() as int]);
                        assert(cpv[pv.len() as int] == name@);
                        assert(q[pv.len() as int] == local@[l_idx as int].children[k as int].0);
                        assert(0 <= k < k + 1 && q[pv.len() as int] == local@[l_idx as int].children[k as int].0);
                    }
                }
                assert forall|a: int, b: int|
                    old_len <= a < ops@.len() && old_len <= b < ops@.len() && (
                    #[trigger] ops@[a]) is CreateDir && op_path(#[trigger] ops@[b]) is Some
                        && is_strict_prefix_of(
                        op_path(ops@[a])->Some_0,
                        op_path(ops@[b])->Some_0,
                    ) implies a < b by {
                    let qa = op_path(ops@[a])->Some_0;
                    let qb = op_path(ops@[b])->Some_0;
                    if a < ops_pre.len() && b < ops_pre.len() {
                        lemma_extends_index(ops@, ops_pre, a);
                        lemma_extends_index(ops@, ops_pre, b);
                    } else if a >= ops_pre.len() && b >= ops_pre.len() {
                    } else if a < ops_pre.len() && b >= ops_pre.len() {
                    } else {
                        lemma_extends_index(ops@, ops_pre, b);
                        assert(is_prefix_of(cpv, qa));
                        assert(qb.subrange(0, qa.len() as int)[pv.len() as int] == qb[pv.len() as int]);
                        assert(qa[pv.len() as int] == qb[pv.len() as int]);
                        assert(qa.subrange(0, cpv.len() as int)[pv.len() as int] == qa[pv.len() as int]);
                        assert(qa[pv.len() as int] == cpv[pv.len() as int]);
                        assert(qa[pv.len() as int] == local@[l_idx as int].children[k as int].0);
                        if qb == pv {
                            assert(qb.len() > qa.len());
                            assert(qa.len() >= cpv.len());
                            assert(false);
                        } else {
                            let kk = choose|kk: int|
                                0 <= kk < k && qb[pv.len() as int] == (
                                #[trigger] local@[l_idx as int].children[kk]).0;
                            assert(local@[l_idx as int].children[kk].0 != local@[l_idx as int].children[k as int].0);
                            assert(false);
                        }
                    }
                }
                assert(op_path(ops@[old_len]) == Some(pv)) by {
                    lemma_extends_index(ops@, ops_pre, old_len);
                }
                assert forall|a: int, b: int|
                    old_len <= a < b < ops@.len() implies op_path(#[trigger] ops@[a]) != op_path(
                    #[trigger] ops@[b],
                ) by {
                    if b < ops_pre.len() {
                        lemma_extends_index(ops@, ops_pre, a);
                        lemma_extends_index(ops@, ops_pre, b);
                    } else if a >= ops_pre.len() {
                    } else {
                        lemma_extends_index(ops@, ops_pre, a);
                        let qa = op_path(ops@[a])->Some_0;
                        let qb = op_path(ops@[b])->Some_0;
                        assert(is_prefix_of(cpv, qb));
                        assert(qb.subrange(0, cpv.len() as int)[pv.len() as int] == qb[pv.len() as int]);
                        assert(qb[pv.len() as int] == cpv[pv.len() as int]);
                        assert(qb[pv.len() as int] == local@[l_idx as int].children[k as int].0);
                        assert(qb.len() >= cpv.len());
                        if qa == pv {
                            assert(qa.len() < qb.len());
                        } else {
                            let kk = choose|kk: int|
                                0 <= kk < k && qa[pv.len() as int] == (
                                #[trigger] local@[l_idx as int].children[kk]).0;
                            assert(local@[l_idx as int].children[kk].0 != local@[l_idx as int].children[k as int].0);
                            if qa == qb {
                                assert(qa[pv.len() as int] == qb[pv.len() as int]);
                                assert(false);
                            }
                        }
                        assert(qa != qb);
                    }
                }

                assert forall|q: PathV|
                    #![trigger resolve(local@, 0, q)]
                    is_prefix_of(pv, q) && resolve(local@, 0, q) is Some && (q.len() > pv.len()
                        && exists|kk: int|
                        0 <= kk < k + 1 && q[pv.len() as int] == (
                        #[trigger] local@[l_idx as int].children[kk]).0) implies exists|a: int|
                    old_len <= a < ops@.len() && op_path(#[trigger] ops@[a]) == Some(q) by {
                    let covered_before = q.len() > pv.len() && exists|kk: int|
                        0 <= kk < k && q[pv.len() as int] == (
                        #[trigger] local@[l_idx as int].children[kk]).0;
                    if covered_before {
                        let a0 = choose|a: int|
                            old_len <= a < ops_pre.len() && op_path(#[trigger] ops_pre[a]) == Some(
                                q,
                            );
                        lemma_extends_index(ops@, ops_pre, a0);
                        assert(old_len <= a0 < ops@.len() && op_path(ops@[a0]) == Some(q));
                    } else {
                        assert(q[pv.len() as int] == name@);
                        assert(cpv =~= pv.push(name@));
                        crate::tree::lemma_prefix_extend(pv, name@, q);
                        assert(is_prefix_of(cpv, q));
                    }
                }
            }
            k = k + 1;
        }
        proof {
            assert forall|q: PathV|
                #![trigger resolve(local@, 0, q)]
                is_prefix_of(pv, q) && resolve(local@, 0, q) is Some implies exists|a: int|
                old(ops)@.len() <= a < ops@.len() && op_path(#[trigger] ops@[a]) == Some(q) by {
                if q.len() == pv.len() {
                    assert(q =~= pv);
                    assert(op_path(ops@[old_len]) == Some(q));
                } else {
                    crate::tree::lemma_resolve_first_component(local@, pv, q, l_idx as int);
                    crate::tree::lemma_find_is_child(
                        local@[l_idx as int].children,
                        q[pv.len() as int],
                    );
                    let kk = choose|kk: int|
                        0 <= kk < local@[l_idx as int].children.len()
                            && #[trigger] local@[l_idx as int].children[kk] == (
                        q[pv.len() as int],
                        find_in_children(local@[l_idx as int].children, q[pv.len() as int])->Some_0,
                        );
                    assert(0 <= kk < n && q[pv.len() as int] == local@[l_idx as int].children[kk].0);
                }
            }
        }
    }
}

/// Creation pass walk: where both trees have a directory, recurse; where a
/// local child is missing remotely, emit its whole subtree.
fn creation_walk(
    local: &Tree,
    remote: &RemoteTree,
    l_idx: usize,
    r_idx: usize,
    path: &Vec<String>,
    ops: &mut Vec<Op>,
)
    requires
        tree_wf(local@),
        tree_wf(remote@),
        l_idx < local@.len(),
        r_idx < remote@.len(),
        resolve(local@, 0, path.deep_view()) == Some(l_idx as int),
        resolve(remote@, 0, path.deep_view()) == Some(r_idx as int),
    ensures
        seq_extends(final(ops)@, old(ops)@),
        forall|a: int|
            old(ops)@.len() <= a < final(ops)@.len() ==> create_op_shape(
                local@,
                #[trigger] final(ops)@[a],
            ) && is_strict_prefix_of(path.deep_view(), op_path(final(ops)@[a])->Some_0)
                && !contains_path(remote@, op_path(final(ops)@[a])->Some_0),
        create_before_descendants(final(ops)@, old(ops)@.len() as int),
        forall|q: PathV|
            #![trigger resolve(local@, 0, q)]
            is_strict_prefix_of(path.deep_view(), q) && resolve(local@, 0, q) is Some && resolve(
                remote@,
                0,
                q,
            ) is None ==> exists|a: int|
                old(ops)@.len() <= a < final(ops)@.len() && op_path(#[trigger] final(ops)@[a])
                    == Some(q),
        forall|a: int, b: int|
            old(ops)@.len() <= a < b < final(ops)@.len() ==> op_path(#[trigger] final(ops)@[a])
                != op_path(#[trigger] final(ops)@[b]),
    decreases local@.len() - l_idx,
{
    let ghost pv = path.deep_view();
    let ghost old_len = ops@.len() as int;
    proof {
        assert(seq_extends(ops@, old(ops)@)) by {
            assert(ops@.subrange(0, old(ops)@.len() as int) =~= old(ops)@);
        }
    }
    let n = local.nodes[l_idx].children.len();
    let mut k: usize = 0;
    while k < n
        invariant
            tree_wf(local@),
            tree_wf(remote@),
            l_idx < local@.len(),
            r_idx < remote@.len(),
            pv == path.deep_view(),
            resolve(local@, 0, pv) == Some(l_idx as int),
            resolve(remote@, 0, pv) == Some(r_idx as int),
            n == local@[l_idx as int].children.len(),
            k <= n,
            old_len == old(ops)@.len(),
            seq_extends(ops@, old(ops)@),
            forall|a: int|
                old_len <= a < ops@.len() ==> create_op_shape(local@, #[trigger] ops@[a])
                    && is_strict_prefix_of(pv, op_path(ops@[a])->Some_0) && !contains_path(
                    remote@,
                    op_path(ops@[a])->Some_0,
                ),
            forall|a: int|
                old_len <= a < ops@.len() ==> (op_path(#[trigger] ops@[a])->Some_0.len() > pv.len()
                    && exists|kk: int|
                    0 <= kk < k && op_path(ops@[a])->Some_0[pv.len() as int] == (
                    #[trigger] local@[l_idx as int].children[kk]).0),
            create_before_descendants(ops@, old_len),
            forall|q: PathV|
                #![trigger resolve(local@, 0, q)]
                is_strict_prefix_of(pv, q) && resolve(local@, 0, q) is Some && resolve(
                    remote@,
                    0,
                    q,
                ) is None && (exists|kk: int|
                    0 <= kk < k && q[pv.len() as int] == (
                    #[trigger] local@[l_idx as int].children[kk]).0) ==> exists|a: int|
                    old_len <= a < ops@.len() && op_path(#[trigger] ops@[a]) == Some(q),
            forall|a: int, b: int|
                old_len <= a < b < ops@.len() ==> op_path(#[trigger] ops@[a]) != op_path(
                    #[trigger] ops@[b],
                ),
        decreases n - k,
    {
        let ghost ops_pre = ops@;
        let name = &local.nodes[l_idx].children[k].0;
        let l_child = local.nodes[l_idx].children[k].1;
        proof {
            assert(local@[l_idx as int].children[k as int] == (name@, l_child as int));
            assert(node_wf(local@, l_idx as int));
            lemma_find_value(local@[l_idx as int].children, k as int);
            lemma_find_in_range(local@, l_idx as int, name@);
        }
        let child_path = path_push(path, name);
        proof {
            lemma_resolve_step(local@, pv, l_idx as int, name@);
            assert(resolve(local@, 0, child_path.deep_view()) == Some(l_child as int));
        }
        let remote_child = remote.find_child_by_name(r_idx, name);
        proof {
            lemma_resolve_step(remote@, pv, r_idx as int, name@);
        }
        match remote_child {
            Some(r_child) => {
                proof {
                    lemma_find_in_range(remote@, r_idx as int, name@);
                }
                creation_walk(local, remote, l_child, r_child, &child_path, ops);
            },
            None => {
                proof {
                    assert(resolve(remote@, 0, child_path.deep_view()) is None);
                }
                emit_create_subtree(local, l_child, &child_path, ops);
            },
        }
        proof {
            let cpv = child_path.deep_view();
            lemma_extends_trans(old(ops)@, ops_pre, ops@);
            assert forall|a: int| ops_pre.len() <= a < ops@.len() implies is_prefix_of(
                cpv,
                op_path(#[trigger] ops@[a])->Some_0,
            ) && !contains_path(remote@, op_path(ops@[a])->Some_0) by {
                let q = op_path(ops@[a])->Some_0;
                if is_strict_prefix_of(cpv, q) {
                    assert(is_prefix_of(cpv, q));
                }
                if contains_path(remote@, q) {
                    lemma_prefix_contained(remote@, cpv, q);
                    assert(false);
                }
            }
            assert forall|a: int| old_len <= a < ops@.len() implies create_op_shape(
                local@,
                #[trigger] ops@[a],
            ) && is_strict_prefix_of(pv, op_path(ops@[a])->Some_0) && !contains_path(
                remote@,
                op_path(ops@[a])->Some_0,
            ) && (op_path(ops@[a])->Some_0.len() > pv.len() && exists|kk: int|
                0 <= kk < k + 1 && op_path(ops@[a])->Some_0[pv.len() as int] == (
                #[trigger] local@[l_idx as int].children[kk]).0) by {
                if a < ops_pre.len() {
                    lemma_extends_index(ops@, ops_pre, a);
                    let q = op_path(ops@[a])->Some_0;
                    let kk = choose|kk: int|
                        0 <= kk < k && q[pv.len() as int] == (
                        #[trigger] local@[l_idx as int].children[kk]).0;
                    assert(0 <= kk < k + 1 && q[pv.len() as int] == local@[l_idx as int].children[kk].0);
                } else {
                    let q = op_path(ops@[a])->Some_0;
                    assert(is_prefix_of(cpv, q));
                    assert(q.subrange(0, pv.len() as int) =~= pv) by {
                        assert forall|i: int| 0 <= i < pv.len() implies q.subrange(
                            0,
                            pv.len() as int,
                        )[i] == pv[i] by {
                            assert(q.subrange(0, cpv.len() as int)[i] == q[i]);
                            assert(cpv[i] == pv[i]);
                        }
                    }
                    assert(is_strict_prefix_of(pv, q));
                    assert(q.subrange(0, cpv.len() as int)[pv.len() as int] == q[pv.len() as int]);
                    assert(q[pv.len() as int] == cpv[pv.len() as int]);
                    assert(q[pv.len() as int] == local@[l_idx as int].children[k as int].0);
                    assert(0 <= k < k + 1 && q[pv.len() as int] == local@[l_idx as int].children[k as int].0);
                }
            }
            assert forall|a: int, b: int|
                old_len <= a < ops@.len() && old_len <= b < ops@.len() && (
                #[trigger] ops@[a]) is CreateDir && op_path(#[trigger] ops@[b]) is Some
                    && is_strict_prefix_of(
                    op_path(ops@[a])->Some_0,
                    op_path(ops@[b])->Some_0,
                ) implies a < b by {
                let qa = op_path(ops@[a])->Some_0;
                let qb = op_path(ops@[b])->Some_0;
                if a < ops_pre.len() && b < ops_pre.len() {
                    lemma_extends_index(ops@, ops_pre, a);
                    lemma_extends_index(ops@, ops_pre, b);
                } else if a >= ops_pre.len() && b >= ops_pre.len() {
                } else if a < ops_pre.len() && b >= ops_pre.len() {
                } else {
                    lemma_extends_index(ops@, ops_pre, b);
                    assert(is_prefix_of(cpv, qa));
                    assert(qb.subrange(0, qa.len() as int)[pv.len() as int] == qb[pv.len() as int]);
                    assert(qa[pv.len() as int] == qb[pv.len() as int]);
                    assert(qa.subrange(0, cpv.len() as int)[pv.len() as int] == qa[pv.len() as int]);
                    assert(qa[pv.len() as int] == cpv[pv.len() as int]);
                    assert(qa[pv.len() as int] == local@[l_idx as int].children[k as int].0);
                    let kk = choose|kk: int|
                        0 <= kk < k && qb[pv.len() as int] == (
                        #[trigger] local@[l_idx as int].children[kk]).0;
                    assert(local@[l_idx as int].children[kk].0 != local@[l_idx as int].children[k as int].0);
                    assert(false);
                }
            }
            assert forall|q: PathV|
                #![trigger resolve(local@, 0, q)]
                is_strict_prefix_of(pv, q) && resolve(local@, 0, q) is Some && resolve(
                    remote@,
                    0,
                    q,
                ) is None && (exists|kk: int|
                    0 <= kk < k + 1 && q[pv.len() as int] == (
                    #[trigger] local@[l_idx as int].children[kk]).0) implies exists|a: int|
                old_len <= a < ops@.len() && op_path(#[trigger] ops@[a]) == Some(q) by {
                let covered_before = exists|kk: int|
                    0 <= kk < k && q[pv.len() as int] == (
                    #[trigger] local@[l_idx as int].children[kk]).0;
                if covered_before {
                    let a0 = choose|a: int|
                        old_len <= a < ops_pre.len() && op_path(#[trigger] ops_pre[a]) == Some(q);
                    lemma_extends_index(ops@, ops_pre, a0);
                    assert(old_len <= a0 < ops@.len() && op_path(ops@[a0]) == Some(q));
                } else {
                    assert(q[pv.len() as int] == name@);
                    assert(cpv =~= pv.push(name@));
                    crate::tree::lemma_prefix_extend(pv, name@, q);
                    assert(is_prefix_of(cpv, q));
                    if resolve(remote@, 0, cpv) is Some {
                        if q.len() == cpv.len() {
                            assert(q =~= cpv);
                            assert(false);
                        }
                        assert(is_strict_prefix_of(cpv, q));
                    }
                }
            }
            assert forall|a: int, b: int|
                old_len <= a < b < ops@.len() implies op_path(#[trigger] ops@[a]) != op_path(
                #[trigger] ops@[b],
            ) by {
                if b < ops_pre.len() {
                    lemma_extends_index(ops@, ops_pre, a);
                    lemma_extends_index(ops@, ops_pre, b);
                } else if a >= ops_pre.len() {
                } else {
                    lemma_extends_index(ops@, ops_pre, a);
                    let qa = op_path(ops@[a])->Some_0;
                    let qb = op_path(ops@[b])->Some_0;
                    assert(is_prefix_of(cpv, qb));
                    assert(qb.subrange(0, cpv.len() as int)[pv.len() as int] == qb[pv.len() as int]);
                    assert(qb[pv.len() as int] == cpv[pv.len() as int]);
                    assert(qb[pv.len() as int] == local@[l_idx as int].children[k as int].0);
                    let kk = choose|kk: int|
                        0 <= kk < k && qa[pv.len() as int] == (
                        #[trigger] local@[l_idx as int].children[kk]).0;
                    assert(local@[l_idx as int].children[kk].0 != local@[l_idx as int].children[k as int].0);
                    if qa == qb {
                        assert(qa[pv.len() as int] == qb[pv.len() as int]);
                        assert(false);
                    }
                    assert(qa != qb);
                }
            }
        }
        k = k + 1;
    }
    proof {
        assert forall|q: PathV|
            #![trigger resolve(local@, 0, q)]
            is_strict_prefix_of(pv, q) && resolve(local@, 0, q) is Some && resolve(
                remote@,
                0,
                q,
            ) is None implies exists|a: int|
            old(ops)@.len() <= a < ops@.len() && op_path(#[trigger] ops@[a]) == Some(q) by {
            crate::tree::lemma_resolve_first_component(local@, pv, q, l_idx as int);
            crate::tree::lemma_find_is_child(local@[l_idx as int].children, q[pv.len() as int]);
            let kk = choose|kk: int|
                0 <= kk < local@[l_idx as int].children.len()
                    && #[trigger] local@[l_idx as int].children[kk] == (
                q[pv.len() as int],
                find_in_children(local@[l_idx as int].children, q[pv.len() as int])->Some_0,
                );
            assert(0 <= kk < n && q[pv.len() as int] == local@[l_idx as int].children[kk].0);
        }
    }
}

/// Whether a matched entry is a file whose oracle verdict asks for a copy.
pub open spec fn wants_copy<F: DiffFn>(
    local: Seq<NodeV>,
    remote: Seq<NodeV>,
    oracle: F,
    m: Match,
) -> bool {
    let q = m.path.deep_view();
    &&& q.len() > 0
    &&& is_file_path(local, q)
    &&& oracle.verdict(
        q,
        local_size_at(local, q),
        resolve(remote, 0, q)->Some_0,
        remote_parent_of(remote, q),
    )
}

/// Number of true entries.
pub open spec fn count_true(v: Seq<bool>) -> int
    decreases v.len(),
{
    if v.len() == 0 {
        0
    } else {
        count_true(v.drop_last()) + if v.last() {
            1int
        } else {
            0int
        }
    }
}

/// Number of matched entries whose oracle verdict asks for a copy.
pub open spec fn count_wants<F: DiffFn>(
    local: Seq<NodeV>,
    remote: Seq<NodeV>,
    oracle: F,
    matched: Seq<Match>,
) -> int
    decreases matched.len(),
{
    if matched.len() == 0 {
        0
    } else {
        count_wants(local, remote, oracle, matched.drop_last()) + if wants_copy(
            local,
            remote,
            oracle,
            matched.last(),
        ) {
            1int
        } else {
            0int
        }
    }
}

/// One push of the update pass: the appended `Copy` sits at the current
/// matched entry's path, so the segment's entry mapping advances and its
/// paths stay pairwise distinct.
proof fn lemma_update_seg_push(matched: Seq<Match>, pre: Seq<Op>, now: Seq<Op>, base: int, a: int)
    requires
        0 <= a < matched.len(),
        forall|i: int, j: int|
            0 <= i < j < matched.len() ==> (#[trigger] matched[i]).path.deep_view() != (
            #[trigger] matched[j]).path.deep_view(),
        0 <= base <= pre.len(),
        now.len() == pre.len() + 1,
        now.subrange(0, pre.len() as int) == pre,
        op_path(now.last()) == Some(matched[a].path.deep_view()),
        forall|x: int|
            base <= x < pre.len() ==> exists|j: int|
                0 <= j < a && op_path(#[trigger] pre[x]) == Some(matched[j].path.deep_view()),
        forall|x: int, y: int|
            base <= x < y < pre.len() ==> op_path(#[trigger] pre[x]) != op_path(#[trigger] pre[y]),
    ensures
        forall|x: int|
            base <= x < now.len() ==> exists|j: int|
                0 <= j < a + 1 && op_path(#[trigger] now[x]) == Some(matched[j].path.deep_view()),
        forall|x: int, y: int|
            base <= x < y < now.len() ==> op_path(#[trigger] now[x]) != op_path(#[trigger] now[y]),
{
    assert forall|x: int| base <= x < now.len() implies exists|j: int|
        0 <= j < a + 1 && op_path(#[trigger] now[x]) == Some(matched[j].path.deep_view()) by {
        if x < pre.len() {
            lemma_extends_index(now, pre, x);
            let j0 = choose|j: int|
                0 <= j < a && op_path(#[trigger] pre[x]) == Some(matched[j].path.deep_view());
            assert(0 <= j0 < a + 1 && op_path(now[x]) == Some(matched[j0].path.deep_view()));
        } else {
            assert(now[x] == now.last());
            assert(0 <= a < a + 1 && op_path(now[x]) == Some(matched[a].path.deep_view()));
        }
    }
    assert forall|x: int, y: int|
        base <= x < y < now.len() implies op_path(#[trigger] now[x]) != op_path(
        #[trigger] now[y],
    ) by {
        if y < pre.len() {
            lemma_extends_index(now, pre, x);
            lemma_extends_index(now, pre, y);
        } else {
            lemma_extends_index(now, pre, x);
            let j0 = choose|j: int|
                0 <= j < a && op_path(#[trigger] pre[x]) == Some(matched[j].path.deep_view());
            assert(now[y] == now.last());
            assert((#[trigger] matched[j0]).path.deep_view() != (
            #[trigger] matched[a]).path.deep_view());
        }
    }
}

/// Update pass: asks the oracle about every matched file and emits `Copy`
/// where it reports a difference. The matched root pair (the empty path)
/// is never a copy candidate.
#[verifier::rlimit(100)]
fn update_pass<F: DiffFn>(
    local: &Tree,
    remote: &RemoteTree,
    matched: &Vec<Match>,
    different: &mut F,
    ops: &mut Vec<Op>,
) -> (r: Result<(), OracleError>)
    requires
        tree_wf(local@),
        tree_wf(remote@),
        forall|a: int| 0 <= a < matched@.len() ==> match_ok(local@, remote@, #[trigger] matched@[a]),
        forall|a: int, b: int|
            0 <= a < b < matched@.len() ==> (#[trigger] matched@[a]).path.deep_view() != (
            #[trigger] matched@[b]).path.deep_view(),
    ensures
        seq_extends(final(ops)@, old(ops)@),
        forall|a: int, b: int|
            old(ops)@.len() <= a < b < final(ops)@.len() ==> op_path(#[trigger] final(ops)@[a])
                != op_path(#[trigger] final(ops)@[b]),
        forall|p: PathV, s: Option<u32>, i: int, j: int|
            final(different).verdict(p, s, i, j) == old(different).verdict(p, s, i, j),
        forall|a: int|
            old(ops)@.len() <= a < final(ops)@.len() ==> {
                let op = #[trigger] final(ops)@[a];
                &&& op is Copy
                &&& op_path(op) matches Some(q)
                &&& q.len() > 0
                &&& is_file_path(local@, q)
                &&& contains_path(remote@, q)
                &&& old(different).verdict(
                    q,
                    local_size_at(local@, q),
                    resolve(remote@, 0, q)->Some_0,
                    remote_parent_of(remote@, q),
                )
            },
        r is Ok ==> forall|i: int|
            0 <= i < matched@.len() && wants_copy(
                local@,
                remote@,
                *old(different),
                #[trigger] matched@[i],
            ) ==> exists|x: int|
                old(ops)@.len() <= x < final(ops)@.len() && op_path(#[trigger] final(ops)@[x])
                    == Some(matched@[i].path.deep_view()),
        r is Ok ==> final(ops)@.len() == old(ops)@.len() + count_wants(
            local@,
            remote@,
            *old(different),
            matched@,
        ),
{
    let n = matched.len();
    proof {
        assert(seq_extends(ops@, old(ops)@)) by {
            assert(ops@.subrange(0, old(ops)@.len() as int) =~= old(ops)@);
        }
        assert(matched@.take(0) =~= Seq::<Match>::empty());
    }
    let mut a: usize = 0;
    while a < n
        invariant
            tree_wf(local@),
            tree_wf(remote@),
            n == matched@.len(),
            a <= n,
            forall|i: int| 0 <= i < matched@.len() ==> match_ok(local@, remote@, #[trigger] matched@[i]),
            forall|i: int, j: int|
                0 <= i < j < matched@.len() ==> (#[trigger] matched@[i]).path.deep_view() != (
                #[trigger] matched@[j]).path.deep_view(),
            seq_extends(ops@, old(ops)@),
            forall|p: PathV, s: Option<u32>, i: int, j: int|
                different.verdict(p, s, i, j) == old(different).verdict(p, s, i, j),
            forall|x: int|
                old(ops)@.len() <= x < ops@.len() ==> {
                    let op = #[trigger] ops@[x];
                    &&& op is Copy
                    &&& op_path(op) matches Some(q)
                    &&& q.len() > 0
                    &&& is_file_path(local@, q)
                    &&& contains_path(remote@, q)
                    &&& old(different).verdict(
                        q,
                        local_size_at(local@, q),
                        resolve(remote@, 0, q)->Some_0,
                        remote_parent_of(remote@, q),
                    )
                },
            forall|i: int|
                0 <= i < a && wants_copy(
                    local@,
                    remote@,
                    *old(different),
                    #[trigger] matched@[i],
                ) ==> exists|x: int|
                    old(ops)@.len() <= x < ops@.len() && op_path(#[trigger] ops@[x]) == Some(
                        matched@[i].path.deep_view(),
                    ),
            ops@.len() == old(ops)@.len() + count_wants(
                local@,
                remote@,
                *old(different),
                matched@.take(a as int),
            ),
            forall|x: int|
                old(ops)@.len() <= x < ops@.len() ==> exists|j: int|
                    0 <= j < a && op_path(#[trigger] ops@[x]) == Some(
                        matched@[j].path.deep_view(),
                    ),
            forall|x: int, y: int|
                old(ops)@.len() <= x < y < ops@.len() ==> op_path(#[trigger] ops@[x]) != op_path(
                    #[trigger] ops@[y],
                ),
        decreases n - a,
    {
        let ghost ops_pre = ops@;
        proof {
            assert(matched@.take(a + 1).drop_last() =~= matched@.take(a as int));
            assert(matched@.take(a + 1).last() == matched@[a as int]);
        }
        let m = &matched[a];
        if m.path.len() > 0 && m.local_idx < local.nodes.len()
            && local.nodes[m.local_idx].children.len() == 0 {
            let size = local.nodes[m.local_idx].size;
            let verdict = different.different(&m.path, size, m.remote_idx, m.remote_parent);
            match verdict {
                Ok(true) => {
                    proof {
                        assert(match_ok(local@, remote@, matched@[a as int]));
                        assert(m.path.deep_view().len() > 0) by {
                            assert(m.path.deep_view().len() == m.path@.len());
                        }
                        assert(is_file_path(local@, m.path.deep_view()));
                        assert(local_size_at(local@, m.path.deep_view()) == local@[m.local_idx as int].size);
                        assert(wants_copy(local@, remote@, *old(different), matched@[a as int]));
                    }
                    ops.push(Op::Copy(path_dup(&m.path)));
                    proof {
                        assert(ops@.subrange(0, ops_pre.len() as int) =~= ops_pre);
                        lemma_extends_trans(old(ops)@, ops_pre, ops@);
                        assert forall|x: int| old(ops)@.len() <= x < ops@.len() implies {
                            let op = #[trigger] ops@[x];
                            &&& op is Copy
                            &&& op_path(op) matches Some(q)
                            &&& q.len() > 0
                            &&& is_file_path(local@, q)
                            &&& contains_path(remote@, q)
                            &&& old(different).verdict(
                                q,
                                local_size_at(local@, q),
                                resolve(remote@, 0, q)->Some_0,
                                remote_parent_of(remote@, q),
                            )
                        } by {
                            if x < ops_pre.len() {
                                lemma_extends_index(ops@, ops_pre, x);
                            }
                        }
                        lemma_update_seg_push(
                            matched@,
                            ops_pre,
                            ops@,
                            old(ops)@.len() as int,
                            a as int,
                        );
                        assert forall|i: int|
                            0 <= i < a + 1 && wants_copy(
                                local@,
                                remote@,
                                *old(different),
                                #[trigger] matched@[i],
                            ) implies exists|x: int|
                            old(ops)@.len() <= x < ops@.len() && op_path(#[trigger] ops@[x])
                                == Some(matched@[i].path.deep_view()) by {
                            if i < a {
                                let x0 = choose|x: int|
                                    old(ops)@.len() <= x < ops_pre.len() && op_path(
                                        #[trigger] ops_pre[x],
                                    ) == Some(matched@[i].path.deep_view());
                                lemma_extends_index(ops@, ops_pre, x0);
                                assert(old(ops)@.len() <= x0 < ops@.len() && op_path(ops@[x0])
                                    == Some(matched@[i].path.deep_view()));
                            } else {
                                let x0 = ops@.len() - 1;
                                assert(op_path(ops@[x0]) == Some(matched@[i].path.deep_view()));
                            }
                        }
                    }
                },
                Ok(false) => {
                    proof {
                        assert(!wants_copy(local@, remote@, *old(different), matched@[a as int]))
                            by {
                            assert(local_size_at(local@, matched@[a as int].path.deep_view())
                                == local@[matched@[a as int].local_idx as int].size);
                        }
                    }
                },
                Err(e) => {
                    return Err(e);
                },
            }
        } else {
            proof {
                crate::tree::lemma_resolve_in_range(
                    local@,
                    0,
                    matched@[a as int].path.deep_view(),
                );
                if wants_copy(local@, remote@, *old(different), matched@[a as int]) {
                    assert(matched@[a as int].path.deep_view().len()
                        == matched@[a as int].path@.len());
                    assert(false);
                }
            }
        }
        a = a + 1;
    }
    proof {
        assert(matched@.take(n as int) =~= matched@);
    }
    Ok(())
}

/// The prune and creation passes alone: removes and creations are
/// appended to `ops` with the same soundness and ordering guarantees as
/// [`diff`], and the matched pairs are returned so that a caller driving a
/// device transport can resolve the equality oracle itself (reading local
/// files and batching remote digests) and finish with
/// [`update_ops_from_verdicts`].
pub fn structural_ops(local: &Tree, remote: &RemoteTree, ops: &mut Vec<Op>) -> (matched: Vec<
    Match,
>)
    requires
        tree_wf(local@),
        tree_wf(remote@),
    ensures
        seq_extends(final(ops)@, old(ops)@),
        forall|a: int|
            0 <= a < matched@.len() ==> match_ok(local@, remote@, #[trigger] matched@[a]),
        forall|a: int|
            old(ops)@.len() <= a < final(ops)@.len() ==> {
                let op = #[trigger] final(ops)@[a];
                &&& op_path(op) is Some
                &&& (op matches Op::Remove(p) ==> contains_path(remote@, p.deep_view())
                    && !contains_path(local@, p.deep_view()) && p.deep_view().len() > 0
                    && contains_path(local@, p.deep_view().subrange(0, p.deep_view().len() - 1))
                    && contains_path(remote@, p.deep_view().subrange(0, p.deep_view().len() - 1)))
                &&& (op matches Op::CreateDir(p) ==> is_dir_path(local@, p.deep_view())
                    && !contains_path(remote@, p.deep_view()) && p.deep_view().len() > 0)
                &&& (op matches Op::Copy(p) ==> is_file_path(local@, p.deep_view())
                    && !contains_path(remote@, p.deep_view()) && p.deep_view().len() > 0)
            },
        removes_lead(final(ops)@, old(ops)@.len() as int),
        create_before_descendants(final(ops)@, old(ops)@.len() as int),
        forall|q: PathV|
            #![trigger resolve(remote@, 0, q)]
            contains_path(remote@, q) && contains_path(local@, q) ==> exists|i: int|
                0 <= i < matched@.len() && (#[trigger] matched@[i]).path.deep_view() == q,
        forall|q: PathV|
            #![trigger resolve(remote@, 0, q)]
            contains_path(remote@, q) && !contains_path(local@, q) ==> exists|a: int|
                old(ops)@.len() <= a < final(ops)@.len() && (#[trigger] final(ops)@[a]) is Remove
                    && (op_path(final(ops)@[a]) matches Some(rr) && is_prefix_of(rr, q)),
        forall|q: PathV|
            #![trigger resolve(local@, 0, q)]
            contains_path(local@, q) && q.len() > 0 && !contains_path(remote@, q) ==> exists|
                a: int,
            |
                old(ops)@.len() <= a < final(ops)@.len() && op_path(#[trigger] final(ops)@[a])
                    == Some(q),
        forall|a: int, b: int|
            old(ops)@.len() <= a < b < final(ops)@.len() ==> op_path(#[trigger] final(ops)@[a])
                != op_path(#[trigger] final(ops)@[b]),
        forall|a: int, b: int|
            0 <= a < b < matched@.len() ==> (#[trigger] matched@[a]).path.deep_view() != (
            #[trigger] matched@[b]).path.deep_view(),
{
    let empty_path: Vec<String> = Vec::new();
    proof {
        assert(empty_path.deep_view() =~= Seq::<Seq<char>>::empty());
        assert(resolve(local@, 0, empty_path.deep_view()) == Some(0int));
        assert(resolve(remote@, 0, empty_path.deep_view()) == Some(0int));
    }
    let mut matched: Vec<Match> = Vec::new();
    prune_walk(local, remote, 0, 0, 0, &empty_path, ops, &mut matched);
    let ghost p1 = ops@;
    creation_walk(local, remote, 0, 0, &empty_path, ops);
    proof {
        let ghost ev: PathV = Seq::empty();
        assert forall|q: PathV| is_prefix_of(ev, q) by {
            assert(q.subrange(0, 0) =~= ev);
        }
        lemma_extends_trans(old(ops)@, p1, ops@);
        assert forall|q: PathV|
            #![trigger resolve(remote@, 0, q)]
            contains_path(remote@, q) && !contains_path(local@, q) implies exists|a: int|
            old(ops)@.len() <= a < ops@.len() && (#[trigger] ops@[a]) is Remove && (op_path(
                ops@[a],
            ) matches Some(rr) && is_prefix_of(rr, q)) by {
            let a0 = choose|a: int|
                old(ops)@.len() <= a < p1.len() && (op_path(#[trigger] p1[a]) matches Some(rr)
                    && is_prefix_of(rr, q));
            lemma_extends_index(ops@, p1, a0);
            assert(p1[a0] is Remove);
            assert(old(ops)@.len() <= a0 < ops@.len() && ops@[a0] is Remove && (op_path(ops@[a0])
                matches Some(rr) && is_prefix_of(rr, q)));
        }
        assert forall|q: PathV|
            #![trigger resolve(local@, 0, q)]
            contains_path(local@, q) && q.len() > 0 && !contains_path(remote@, q) implies exists|
            a: int,
        |
            old(ops)@.len() <= a < ops@.len() && op_path(#[trigger] ops@[a]) == Some(q) by {
            assert(q.subrange(0, 0) =~= ev);
            assert(is_strict_prefix_of(ev, q));
        }
        assert forall|a: int, b: int|
            old(ops)@.len() <= a < b < ops@.len() implies op_path(#[trigger] ops@[a]) != op_path(
            #[trigger] ops@[b],
        ) by {
            if b < p1.len() {
                lemma_extends_index(ops@, p1, a);
                lemma_extends_index(ops@, p1, b);
            } else if a >= p1.len() {
            } else {
                lemma_extends_index(ops@, p1, a);
                let qa = op_path(ops@[a])->Some_0;
                let qb = op_path(ops@[b])->Some_0;
                assert(contains_path(remote@, qa));
                assert(!contains_path(remote@, qb));
                assert(qa != qb);
            }
        }
        assert forall|a: int| old(ops)@.len() <= a < ops@.len() implies {
            let op = #[trigger] ops@[a];
            &&& op_path(op) is Some
            &&& (op matches Op::Remove(p) ==> contains_path(remote@, p.deep_view())
                && !contains_path(local@, p.deep_view()) && p.deep_view().len() > 0
                && contains_path(local@, p.deep_view().subrange(0, p.deep_view().len() - 1))
                && contains_path(remote@, p.deep_view().subrange(0, p.deep_view().len() - 1)))
            &&& (op matches Op::CreateDir(p) ==> is_dir_path(local@, p.deep_view())
                && !contains_path(remote@, p.deep_view()) && p.deep_view().len() > 0)
            &&& (op matches Op::Copy(p) ==> is_file_path(local@, p.deep_view())
                && !contains_path(remote@, p.deep_view()) && p.deep_view().len() > 0)
        } by {
            if a < p1.len() {
                lemma_extends_index(ops@, p1, a);
            }
        }
        assert forall|a: int, b: int|
            old(ops)@.len() <= a < b < ops@.len() && (#[trigger] ops@[b]) is Remove implies (
        #[trigger] ops@[a]) is Remove by {
            if b < p1.len() {
                lemma_extends_index(ops@, p1, b);
                lemma_extends_index(ops@, p1, a);
            } else {
                assert(!(ops@[b] is Remove));
                assert(false);
            }
        }
        assert forall|a: int, b: int|
            old(ops)@.len() <= a < ops@.len() && old(ops)@.len() <= b < ops@.len() && (
            #[trigger] ops@[a]) is CreateDir && op_path(#[trigger] ops@[b]) is Some
                && is_strict_prefix_of(op_path(ops@[a])->Some_0, op_path(ops@[b])->Some_0) implies a
            < b by {
            if a < p1.len() {
                lemma_extends_index(ops@, p1, a);
                assert(ops@[a] is Remove);
                assert(false);
            } else if b < p1.len() {
                lemma_extends_index(ops@, p1, b);
                let qa = op_path(ops@[a])->Some_0;
                let qb = op_path(ops@[b])->Some_0;
                assert(contains_path(remote@, qb));
                lemma_prefix_contained(remote@, qa, qb);
                assert(false);
            }
        }
    }
    matched
}

/// The copy candidates among the matched pairs, as indices into the
/// matched list: exactly the matched files (the root pair, at the empty
/// path, is never one), in order.
pub fn matched_file_candidates(local: &Tree, matched: &Vec<Match>) -> (r: Vec<usize>)
    requires
        tree_wf(local@),
        forall|a: int|
            0 <= a < matched@.len() ==> resolve(
                local@,
                0,
                (#[trigger] matched@[a]).path.deep_view(),
            ) == Some(matched@[a].local_idx as int),
    ensures
        forall|k: int|
            0 <= k < r@.len() ==> #[trigger] r@[k] < matched@.len() && is_file_path(
                local@,
                matched@[r@[k] as int].path.deep_view(),
            ) && matched@[r@[k] as int].path.deep_view().len() > 0,
        forall|j: int|
            0 <= j < matched@.len() && is_file_path(
                local@,
                (#[trigger] matched@[j]).path.deep_view(),
            ) && matched@[j].path.deep_view().len() > 0 ==> exists|k: int|
                0 <= k < r@.len() && #[trigger] r@[k] == j,
{
    let n = matched.len();
    let mut r: Vec<usize> = Vec::new();
    let mut i: usize = 0;
    while i < n
        invariant
            tree_wf(local@),
            n == matched@.len(),
            i <= n,
            forall|a: int|
                0 <= a < matched@.len() ==> resolve(
                    local@,
                    0,
                    (#[trigger] matched@[a]).path.deep_view(),
                ) == Some(matched@[a].local_idx as int),
            forall|k: int|
                0 <= k < r@.len() ==> #[trigger] r@[k] < matched@.len() && is_file_path(
                    local@,
                    matched@[r@[k] as int].path.deep_view(),
                ) && matched@[r@[k] as int].path.deep_view().len() > 0,
            forall|j: int|
                0 <= j < i && is_file_path(local@, (#[trigger] matched@[j]).path.deep_view())
                    && matched@[j].path.deep_view().len() > 0 ==> exists|k: int|
                    0 <= k < r@.len() && #[trigger] r@[k] == j,
        decreases n - i,
    {
        let m = &matched[i];
        proof {
            crate::tree::lemma_resolve_in_range(local@, 0, matched@[i as int].path.deep_view());
        }
        if m.path.len() > 0 && m.local_idx < local.nodes.len()
            && local.nodes[m.local_idx].children.len() == 0 {
            proof {
                assert(matched@[i as int].path.deep_view().len() == matched@[i as int].path@.len());
                assert(is_file_path(local@, matched@[i as int].path.deep_view()));
            }
            let ghost pre_r = r@;
            r.push(i);
            proof {
                assert(r@.last() == i as int);
                assert forall|j: int|
                    0 <= j < i + 1 && is_file_path(
                        local@,
                        (#[trigger] matched@[j]).path.deep_view(),
                    ) && matched@[j].path.deep_view().len() > 0 implies exists|k: int|
                    0 <= k < r@.len() && #[trigger] r@[k] == j by {
                    if j == i {
                        assert(r@[r@.len() - 1] == i as int);
                    } else {
                        let k0 = choose|k: int| 0 <= k < pre_r.len() && #[trigger] pre_r[k] == j;
                        assert(r@[k0] == j);
                    }
                }
            }
        } else {
            proof {
                if matched@[i as int].path.deep_view().len() > 0 && is_file_path(
                    local@,
                    matched@[i as int].path.deep_view(),
                ) {
                    assert(matched@[i as int].path@.len() > 0);
                    assert(local@[matched@[i as int].local_idx as int].children.len() == 0);
                    assert(false);
                }
            }
        }
        i = i + 1;
    }
    r
}

/// Appends one `Copy` per candidate whose verdict is "different", in
/// candidate order.
#[verifier::rlimit(100)]
pub fn update_ops_from_verdicts(
    matched: &Vec<Match>,
    candidates: &Vec<usize>,
    verdicts: &Vec<bool>,
    ops: &mut Vec<Op>,
)
    requires
        verdicts@.len() == candidates@.len(),
        forall|k: int| 0 <= k < candidates@.len() ==> #[trigger] candidates@[k] < matched@.len(),
    ensures
        seq_extends(final(ops)@, old(ops)@),
        forall|a: int|
            old(ops)@.len() <= a < final(ops)@.len() ==> (#[trigger] final(ops)@[a]) is Copy,
        forall|k: int|
            0 <= k < candidates@.len() && verdicts@[k] ==> exists|a: int|
                old(ops)@.len() <= a < final(ops)@.len() && op_path(#[trigger] final(ops)@[a])
                    == Some(matched@[candidates@[k] as int].path.deep_view()),
        final(ops)@.len() == old(ops)@.len() + count_true(verdicts@),
{
    let n = candidates.len();
    proof {
        assert(seq_extends(ops@, old(ops)@)) by {
            assert(ops@.subrange(0, old(ops)@.len() as int) =~= old(ops)@);
        }
        assert(verdicts@.take(0) =~= Seq::<bool>::empty());
    }
    let mut k: usize = 0;
    while k < n
        invariant
            n == candidates@.len(),
            verdicts@.len() == n,
            forall|j: int| 0 <= j < n ==> #[trigger] candidates@[j] < matched@.len(),
            k <= n,
            seq_extends(ops@, old(ops)@),
            forall|a: int| old(ops)@.len() <= a < ops@.len() ==> (#[trigger] ops@[a]) is Copy,
            forall|j: int|
                0 <= j < k && verdicts@[j] ==> exists|a: int|
                    old(ops)@.len() <= a < ops@.len() && op_path(#[trigger] ops@[a]) == Some(
                        matched@[candidates@[j] as int].path.deep_view(),
                    ),
            ops@.len() == old(ops)@.len() + count_true(verdicts@.take(k as int)),
        decreases n - k,
    {
        let ghost ops_pre = ops@;
        proof {
            assert(verdicts@.take(k + 1).drop_last() =~= verdicts@.take(k as int));
            assert(verdicts@.take(k + 1).last() == verdicts@[k as int]);
        }
        if verdicts[k] {
            let idx = candidates[k];
            let path = path_dup(&matched[idx].path);
            ops.push(Op::Copy(path));
            proof {
                assert(ops@.subrange(0, ops_pre.len() as int) =~= ops_pre);
                lemma_extends_trans(old(ops)@, ops_pre, ops@);
                assert(op_path(ops@.last()) == Some(
                    matched@[candidates@[k as int] as int].path.deep_view(),
                ));
                assert forall|a: int|
                    old(ops)@.len() <= a < ops@.len() implies (#[trigger] ops@[a]) is Copy by {
                    if a < ops_pre.len() {
                        lemma_extends_index(ops@, ops_pre, a);
                    }
                }
                assert forall|j: int| 0 <= j < k + 1 && verdicts@[j] implies exists|a: int|
                    old(ops)@.len() <= a < ops@.len() && op_path(#[trigger] ops@[a]) == Some(
                        matched@[candidates@[j] as int].path.deep_view(),
                    ) by {
                    if j < k {
                        let a0 = choose|a: int|
                            old(ops)@.len() <= a < ops_pre.len() && op_path(#[trigger] ops_pre[a])
                                == Some(matched@[candidates@[j] as int].path.deep_view());
                        lemma_extends_index(ops@, ops_pre, a0);
                        assert(old(ops)@.len() <= a0 < ops@.len() && op_path(ops@[a0]) == Some(
                            matched@[candidates@[j] as int].path.deep_view(),
                        ));
                    } else {
                        let a0 = ops@.len() - 1;
                        assert(old(ops)@.len() <= a0 < ops@.len() && op_path(ops@[a0]) == Some(
                            matched@[candidates@[j] as int].path.deep_view(),
                        ));
                    }
                }
            }
        }
        k = k + 1;
    }
    proof {
        assert(verdicts@.take(n as int) =~= verdicts@);
    }
}

/// State of one path on the simulated remote filesystem.
#[derive(PartialEq, Eq, Structural)]
pub enum PathState {
    Missing,
    IsFile,
    IsDir,
}

/// Whether applying `op` can change the state of path `p`: a `Remove` at a
/// prefix of `p` erases it, a `Copy` or `CreateDir` at `p` itself writes
/// it.
pub open spec fn op_affects(op: Op, p: PathV) -> bool {
    match op_path(op) {
        None => false,
        Some(q) => if op is Remove {
            is_prefix_of(q, p)
        } else {
            q == p
        },
    }
}

/// The state of `p` after applying `op` to a state `st`.
pub open spec fn op_effect(op: Op, p: PathV, st: PathState) -> PathState {
    match op_path(op) {
        None => st,
        Some(q) => if op is Remove && is_prefix_of(q, p) {
            PathState::Missing
        } else if op is Copy && q == p {
            PathState::IsFile
        } else if op is CreateDir && q == p {
            PathState::IsDir
        } else {
            st
        },
    }
}

/// The state of `p` after applying a whole op sequence, in order.
pub open spec fn path_state_after(ops: Seq<Op>, init: PathState, p: PathV) -> PathState
    decreases ops.len(),
{
    if ops.len() == 0 {
        init
    } else {
        op_effect(ops.last(), p, path_state_after(ops.drop_last(), init, p))
    }
}

/// The state of `p` in the local tree: a childless node is a file.
pub open spec fn local_model(t: Seq<NodeV>, p: PathV) -> PathState {
    match resolve(t, 0, p) {
        None => PathState::Missing,
        Some(i) => if t[i].children.len() == 0 {
            PathState::IsFile
        } else {
            PathState::IsDir
        },
    }
}

/// The state of `p` in the remote tree: the listing marks files with a
/// size, directories without one.
pub open spec fn remote_model(t: Seq<NodeV>, p: PathV) -> PathState {
    match resolve(t, 0, p) {
        None => PathState::Missing,
        Some(i) => if t[i].size is Some {
            PathState::IsFile
        } else {
            PathState::IsDir
        },
    }
}

/// A sequence whose ops never touch `p` leaves it as it was.
proof fn lemma_state_unaffected(ops: Seq<Op>, init: PathState, p: PathV)
    requires
        forall|a: int| 0 <= a < ops.len() ==> !op_affects(#[trigger] ops[a], p),
    ensures
        path_state_after(ops, init, p) == init,
    decreases ops.len(),
{
    if ops.len() > 0 {
        assert forall|a: int| 0 <= a < ops.drop_last().len() implies !op_affects(
            #[trigger] ops.drop_last()[a],
            p,
        ) by {
            assert(ops.drop_last()[a] == ops[a]);
        }
        lemma_state_unaffected(ops.drop_last(), init, p);
        assert(ops.last() == ops[ops.len() - 1]);
    }
}

/// If every op that touches `p` writes the same state `target`, the final
/// state is the initial one or `target`, and `target` as soon as one such
/// op exists.
proof fn lemma_state_uniform(ops: Seq<Op>, init: PathState, p: PathV, target: PathState)
    requires
        forall|a: int|
            0 <= a < ops.len() && op_affects(#[trigger] ops[a], p) ==> op_effect(ops[a], p, init)
                == target && op_effect(ops[a], p, target) == target,
    ensures
        path_state_after(ops, init, p) == init || path_state_after(ops, init, p) == target,
        (exists|a: int| 0 <= a < ops.len() && op_affects(#[trigger] ops[a], p))
            ==> path_state_after(ops, init, p) == target,
    decreases ops.len(),
{
    if ops.len() > 0 {
        assert forall|a: int|
            0 <= a < ops.drop_last().len() && op_affects(#[trigger] ops.drop_last()[a], p) implies
            op_effect(ops.drop_last()[a], p, init) == target && op_effect(
            ops.drop_last()[a],
            p,
            target,
        ) == target by {
            assert(ops.drop_last()[a] == ops[a]);
        }
        lemma_state_uniform(ops.drop_last(), init, p, target);
        assert(ops.last() == ops[ops.len() - 1]);
        let st = path_state_after(ops.drop_last(), init, p);
        if op_affects(ops.last(), p) {
            assert(op_effect(ops.last(), p, st) == target);
        } else {
            assert(op_effect(ops.last(), p, st) == st);
            if exists|a: int| 0 <= a < ops.len() && op_affects(#[trigger] ops[a], p) {
                let a0 = choose|a: int| 0 <= a < ops.len() && op_affects(#[trigger] ops[a], p);
                assert(a0 < ops.len() - 1);
                assert(ops.drop_last()[a0] == ops[a0]);
                assert(exists|a: int|
                    0 <= a < ops.drop_last().len() && op_affects(
                        #[trigger] ops.drop_last()[a],
                        p,
                    ));
            }
        }
    }
}

/// Diff soundness: an op sequence with the properties the passes
/// establish, applied to the simulated remote, makes every path's state
/// match the local tree. The two hypotheses about the oracle say that it
/// flags a matched file whose remote counterpart is dir-shaped, and that
/// no local directory faces a remote file (an input the device layout
/// never produces and this transformation cannot repair).
pub proof fn lemma_diff_transforms_remote<F: DiffFn>(
    local: Seq<NodeV>,
    remote: Seq<NodeV>,
    oracle: F,
    seg: Seq<Op>,
)
    requires
        tree_wf(local),
        tree_wf(remote),
        forall|a: int| 0 <= a < seg.len() ==> diff_op_sound(local, remote, oracle, #[trigger] seg[a]),
        forall|q: PathV|
            #![trigger resolve(remote, 0, q)]
            contains_path(remote, q) && !contains_path(local, q) ==> exists|a: int|
                0 <= a < seg.len() && (#[trigger] seg[a]) is Remove && (op_path(seg[a])
                    matches Some(rr) && is_prefix_of(rr, q)),
        forall|q: PathV|
            #![trigger resolve(local, 0, q)]
            contains_path(local, q) && q.len() > 0 && !contains_path(remote, q) ==> exists|a: int|
                0 <= a < seg.len() && op_path(#[trigger] seg[a]) == Some(q),
        forall|q: PathV|
            #![trigger resolve(remote, 0, q)]
            is_file_path(local, q) && q.len() > 0 && contains_path(remote, q) && oracle.verdict(
                q,
                local_size_at(local, q),
                resolve(remote, 0, q)->Some_0,
                remote_parent_of(remote, q),
            ) ==> exists|a: int|
                0 <= a < seg.len() && (#[trigger] seg[a]) is Copy && op_path(seg[a]) == Some(q),
        forall|q: PathV|
            #![trigger resolve(remote, 0, q)]
            is_file_path(local, q) && (resolve(remote, 0, q) matches Some(i) && remote[i].size
                is None) ==> oracle.verdict(
                q,
                local_size_at(local, q),
                resolve(remote, 0, q)->Some_0,
                remote_parent_of(remote, q),
            ),
        forall|q: PathV|
            #![trigger resolve(remote, 0, q)]
            is_dir_path(local, q) && resolve(remote, 0, q) is Some ==> remote[resolve(
                remote,
                0,
                q,
            )->Some_0].size is None,
    ensures
        forall|p: PathV|
            p.len() > 0 ==> #[trigger] path_state_after(seg, remote_model(remote, p), p)
                == local_model(local, p),
{
    assert forall|p: PathV| p.len() > 0 implies #[trigger] path_state_after(
        seg,
        remote_model(remote, p),
        p,
    ) == local_model(local, p) by {
        let init = remote_model(remote, p);
        match resolve(local, 0, p) {
            None => {
                assert forall|a: int|
                    0 <= a < seg.len() && op_affects(#[trigger] seg[a], p) implies op_effect(
                    seg[a],
                    p,
                    init,
                ) == PathState::Missing && op_effect(seg[a], p, PathState::Missing)
                    == PathState::Missing by {
                    if !(seg[a] is Remove) {
                        let q = op_path(seg[a])->Some_0;
                        assert(q == p);
                        assert(contains_path(local, q));
                        assert(false);
                    }
                }
                lemma_state_uniform(seg, init, p, PathState::Missing);
                if contains_path(remote, p) {
                    let a0 = choose|a: int|
                        0 <= a < seg.len() && (#[trigger] seg[a]) is Remove && (op_path(seg[a])
                            matches Some(rr) && is_prefix_of(rr, p));
                    assert(op_affects(seg[a0], p));
                } else {
                    assert(init == PathState::Missing);
                }
            },
            Some(i) => {
                if local[i].children.len() == 0 {
                    assert forall|a: int|
                        0 <= a < seg.len() && op_affects(#[trigger] seg[a], p) implies op_effect(
                        seg[a],
                        p,
                        init,
                    ) == PathState::IsFile && op_effect(seg[a], p, PathState::IsFile)
                        == PathState::IsFile by {
                        let q = op_path(seg[a])->Some_0;
                        if seg[a] is Remove {
                            lemma_prefix_contained(local, q, p);
                            assert(false);
                        }
                        if seg[a] is CreateDir {
                            assert(q == p);
                            assert(is_dir_path(local, q));
                            assert(false);
                        }
                    }
                    lemma_state_uniform(seg, init, p, PathState::IsFile);
                    match resolve(remote, 0, p) {
                        None => {
                            let a0 = choose|a: int|
                                0 <= a < seg.len() && op_path(#[trigger] seg[a]) == Some(p);
                            assert(diff_op_sound(local, remote, oracle, seg[a0]));
                            assert(seg[a0] is Copy) by {
                                if seg[a0] is Remove {
                                    assert(contains_path(local, p));
                                    assert(false);
                                }
                                if seg[a0] is CreateDir {
                                    assert(is_dir_path(local, p));
                                    assert(false);
                                }
                            }
                            assert(op_affects(seg[a0], p));
                        },
                        Some(ri) => {
                            if remote[ri].size is Some {
                                assert(init == PathState::IsFile);
                            } else {
                                assert(oracle.verdict(
                                    p,
                                    local_size_at(local, p),
                                    resolve(remote, 0, p)->Some_0,
                                    remote_parent_of(remote, p),
                                ));
                                let a0 = choose|a: int|
                                    0 <= a < seg.len() && (#[trigger] seg[a]) is Copy && op_path(
                                        seg[a],
                                    ) == Some(p);
                                assert(op_affects(seg[a0], p));
                            }
                        },
                    }
                } else {
                    assert forall|a: int|
                        0 <= a < seg.len() && op_affects(#[trigger] seg[a], p) implies op_effect(
                        seg[a],
                        p,
                        init,
                    ) == PathState::IsDir && op_effect(seg[a], p, PathState::IsDir)
                        == PathState::IsDir by {
                        let q = op_path(seg[a])->Some_0;
                        if seg[a] is Remove {
                            lemma_prefix_contained(local, q, p);
                            assert(false);
                        }
                        if seg[a] is Copy {
                            assert(q == p);
                            assert(is_file_path(local, q));
                            assert(false);
                        }
                    }
                    lemma_state_uniform(seg, init, p, PathState::IsDir);
                    match resolve(remote, 0, p) {
                        None => {
                            let a0 = choose|a: int|
                                0 <= a < seg.len() && op_path(#[trigger] seg[a]) == Some(p);
                            assert(diff_op_sound(local, remote, oracle, seg[a0]));
                            assert(seg[a0] is CreateDir) by {
                                if seg[a0] is Remove {
                                    assert(contains_path(local, p));
                                    assert(false);
                                }
                                if seg[a0] is Copy {
                                    assert(is_file_path(local, p));
                                    assert(false);
                                }
                            }
                            assert(op_affects(seg[a0], p));
                        },
                        Some(ri) => {
                            assert(remote[ri].size is None);
                            assert(init == PathState::IsDir);
                        },
                    }
                }
            },
        }
    }
}

/// Completeness of the matched-file copies: from the matched list covering
/// every common path and the update segment covering every matched file
/// the oracle flags, every flagged common file has its `Copy`.
pub proof fn lemma_copy_completeness<F: DiffFn>(
    local: Seq<NodeV>,
    remote: Seq<NodeV>,
    oracle: F,
    matched: Seq<Match>,
    ops: Seq<Op>,
    lo: int,
    mid: int,
)
    requires
        0 <= lo <= mid <= ops.len(),
        forall|q: PathV|
            #![trigger resolve(remote, 0, q)]
            contains_path(remote, q) && contains_path(local, q) ==> exists|i: int|
                0 <= i < matched.len() && (#[trigger] matched[i]).path.deep_view() == q,
        forall|i: int|
            0 <= i < matched.len() && wants_copy(local, remote, oracle, #[trigger] matched[i])
                ==> exists|x: int|
                mid <= x < ops.len() && op_path(#[trigger] ops[x]) == Some(
                    matched[i].path.deep_view(),
                ),
        forall|x: int| mid <= x < ops.len() ==> (#[trigger] ops[x]) is Copy,
    ensures
        forall|q: PathV|
            #![trigger resolve(remote, 0, q)]
            is_file_path(local, q) && q.len() > 0 && contains_path(remote, q) && oracle.verdict(
                q,
                local_size_at(local, q),
                resolve(remote, 0, q)->Some_0,
                remote_parent_of(remote, q),
            ) ==> exists|a: int|
                lo <= a < ops.len() && (#[trigger] ops[a]) is Copy && op_path(ops[a]) == Some(q),
{
    assert forall|q: PathV|
        #![trigger resolve(remote, 0, q)]
        is_file_path(local, q) && q.len() > 0 && contains_path(remote, q) && oracle.verdict(
            q,
            local_size_at(local, q),
            resolve(remote, 0, q)->Some_0,
            remote_parent_of(remote, q),
        ) implies exists|a: int|
        lo <= a < ops.len() && (#[trigger] ops[a]) is Copy && op_path(ops[a]) == Some(q) by {
        let i0 = choose|i: int|
            0 <= i < matched.len() && (#[trigger] matched[i]).path.deep_view() == q;
        assert(wants_copy(local, remote, oracle, matched[i0]));
        let x0 = choose|x: int|
            mid <= x < ops.len() && op_path(#[trigger] ops[x]) == Some(
                matched[i0].path.deep_view(),
            );
        assert(lo <= x0 < ops.len() && ops[x0] is Copy && op_path(ops[x0]) == Some(q));
    }
}

/// Computes the op sequence that transforms `remote` into `local`: prune,
/// creation, and update passes in order. On success, each appended op is
/// one that changes the simulated remote (`diff_op_sound`), the removes
/// lead the appended segment, and each `CreateDir` precedes the ops under
/// it (also on an oracle error, for what was appended).
#[verifier::rlimit(100)]
pub fn diff<F: DiffFn>(
    local: &Tree,
    remote: &RemoteTree,
    ops: &mut Vec<Op>,
    different: &mut F,
) -> (r: Result<(), OracleError>)
    requires
        tree_wf(local@),
        tree_wf(remote@),
    ensures
        seq_extends(final(ops)@, old(ops)@),
        forall|p: PathV, s: Option<u32>, i: int, j: int|
            final(different).verdict(p, s, i, j) == old(different).verdict(p, s, i, j),
        forall|a: int|
            old(ops)@.len() <= a < final(ops)@.len() ==> diff_op_sound(
                local@,
                remote@,
                *old(different),
                #[trigger] final(ops)@[a],
            ),
        removes_lead(final(ops)@, old(ops)@.len() as int),
        create_before_descendants(final(ops)@, old(ops)@.len() as int),
        forall|q: PathV|
            #![trigger resolve(remote@, 0, q)]
            contains_path(remote@, q) && !contains_path(local@, q) ==> exists|a: int|
                old(ops)@.len() <= a < final(ops)@.len() && (#[trigger] final(ops)@[a]) is Remove
                    && (op_path(final(ops)@[a]) matches Some(rr) && is_prefix_of(rr, q)),
        forall|q: PathV|
            #![trigger resolve(local@, 0, q)]
            contains_path(local@, q) && q.len() > 0 && !contains_path(remote@, q) ==> exists|
                a: int,
            |
                old(ops)@.len() <= a < final(ops)@.len() && op_path(#[trigger] final(ops)@[a])
                    == Some(q),
        r is Ok ==> forall|q: PathV|
            #![trigger resolve(remote@, 0, q)]
            is_file_path(local@, q) && q.len() > 0 && contains_path(remote@, q) && old(
                different,
            ).verdict(
                q,
                local_size_at(local@, q),
                resolve(remote@, 0, q)->Some_0,
                remote_parent_of(remote@, q),
            ) ==> exists|a: int|
                old(ops)@.len() <= a < final(ops)@.len() && (#[trigger] final(ops)@[a]) is Copy
                    && op_path(final(ops)@[a]) == Some(q),
        forall|a: int, b: int|
            old(ops)@.len() <= a < b < final(ops)@.len() ==> op_path(#[trigger] final(ops)@[a])
                != op_path(#[trigger] final(ops)@[b]),
{
    let ghost old_len = ops@.len() as int;
    let matched = structural_ops(local, remote, ops);
    let ghost p2 = ops@;
    let r = update_pass(local, remote, &matched, different, ops);
    proof {
        lemma_extends_trans(old(ops)@, p2, ops@);
        if r is Ok {
            assert forall|x: int| p2.len() <= x < ops@.len() implies (#[trigger] ops@[x])
                is Copy by {}
            assert(forall|i: int|
                0 <= i < matched@.len() && wants_copy(
                    local@,
                    remote@,
                    *old(different),
                    #[trigger] matched@[i],
                ) ==> exists|x: int|
                    p2.len() <= x < ops@.len() && op_path(#[trigger] ops@[x]) == Some(
                        matched@[i].path.deep_view(),
                    ));
            lemma_copy_completeness(
                local@,
                remote@,
                *old(different),
                matched@,
                ops@,
                old_len,
                p2.len() as int,
            );
        }
        assert forall|q: PathV|
            #![trigger resolve(remote@, 0, q)]
            contains_path(remote@, q) && !contains_path(local@, q) implies exists|a: int|
            old_len <= a < ops@.len() && (#[trigger] ops@[a]) is Remove && (op_path(ops@[a])
                matches Some(rr) && is_prefix_of(rr, q)) by {
            let a0 = choose|a: int|
                old_len <= a < p2.len() && (#[trigger] p2[a]) is Remove && (op_path(p2[a])
                    matches Some(rr) && is_prefix_of(rr, q));
            lemma_extends_index(ops@, p2, a0);
            assert(old_len <= a0 < ops@.len() && ops@[a0] is Remove && (op_path(ops@[a0])
                matches Some(rr) && is_prefix_of(rr, q)));
        }
        assert forall|q: PathV|
            #![trigger resolve(local@, 0, q)]
            contains_path(local@, q) && q.len() > 0 && !contains_path(remote@, q) implies exists|
            a: int,
        |
            old_len <= a < ops@.len() && op_path(#[trigger] ops@[a]) == Some(q) by {
            let a0 = choose|a: int|
                old_len <= a < p2.len() && op_path(#[trigger] p2[a]) == Some(q);
            lemma_extends_index(ops@, p2, a0);
            assert(old_len <= a0 < ops@.len() && op_path(ops@[a0]) == Some(q));
        }
        assert forall|a: int| old_len <= a < ops@.len() implies diff_op_sound(
            local@,
            remote@,
            *old(different),
            #[trigger] ops@[a],
        ) by {
            if a < p2.len() {
                lemma_extends_index(ops@, p2, a);
            }
        }
        assert forall|a: int, b: int|
            old_len <= a < b < ops@.len() && (#[trigger] ops@[b]) is Remove implies (
        #[trigger] ops@[a]) is Remove by {
            if b < p2.len() {
                lemma_extends_index(ops@, p2, b);
                lemma_extends_index(ops@, p2, a);
            } else {
                assert(!(ops@[b] is Remove));
                assert(false);
            }
        }
        assert forall|a: int, b: int|
            old_len <= a < ops@.len() && old_len <= b < ops@.len() && (
            #[trigger] ops@[a]) is CreateDir && op_path(#[trigger] ops@[b]) is Some
                && is_strict_prefix_of(op_path(ops@[a])->Some_0, op_path(ops@[b])->Some_0) implies a
            < b by {
            if a < p2.len() {
                lemma_extends_index(ops@, p2, a);
                let qa = op_path(ops@[a])->Some_0;
                let qb = op_path(ops@[b])->Some_0;
                if b < p2.len() {
                    lemma_extends_index(ops@, p2, b);
                } else {
                    assert(contains_path(remote@, qb));
                    lemma_prefix_contained(remote@, qa, qb);
                    assert(false);
                }
            } else {
                assert(!(ops@[a] is CreateDir));
                assert(false);
            }
        }
        assert forall|a: int, b: int|
            old_len <= a < b < ops@.len() implies op_path(#[trigger] ops@[a]) != op_path(
            #[trigger] ops@[b],
        ) by {
            if b < p2.len() {
                lemma_extends_index(ops@, p2, a);
                lemma_extends_index(ops@, p2, b);
            } else if a >= p2.len() {
            } else {
                lemma_extends_index(ops@, p2, a);
                let qa = op_path(ops@[a])->Some_0;
                let qb = op_path(ops@[b])->Some_0;
                assert(is_file_path(local@, qb) && contains_path(remote@, qb));
                if ops@[a] is Remove {
                    assert(!contains_path(local@, qa));
                    assert(qa != qb);
                } else {
                    assert(!contains_path(remote@, qa));
                    assert(qa != qb);
                }
            }
        }
    }
    r
}

} // verus!
