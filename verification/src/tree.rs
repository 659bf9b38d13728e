//! Arena-indexed filesystem trees.
//!
//! A tree is a flat vector of nodes; node 0 is the root. Each node carries a
//! name, an insertion-ordered list of `(child name, child index)` pairs, and
//! an optional size in bytes. The local tree is built from a list of file
//! paths, so a childless node is a file; the remote tree records directories
//! explicitly (a directory has no size).
//!
//! The ghost model views a tree as a sequence of `NodeV` and resolves paths
//! (sequences of component names) to arena indices.

use vstd::prelude::*;

verus! {

/// Ghost shape of one arena node.
#[verifier::ext_equal]
pub struct NodeV {
    pub name: Seq<char>,
    pub children: Seq<(Seq<char>, int)>,
    pub size: Option<u32>,
}

/// A path is a sequence of component names.
pub type PathV = Seq<Seq<char>>;

/// `a` is a (not necessarily strict) prefix of `b`.
pub open spec fn is_prefix_of(a: PathV, b: PathV) -> bool {
    a.len() <= b.len() && a == b.subrange(0, a.len() as int)
}

/// `a` is a strict prefix of `b`.
pub open spec fn is_strict_prefix_of(a: PathV, b: PathV) -> bool {
    a.len() < b.len() && a == b.subrange(0, a.len() as int)
}

/// First index bound to `name` in a child list, if any.
pub open spec fn find_in_children(cs: Seq<(Seq<char>, int)>, name: Seq<char>) -> Option<int>
    decreases cs.len(),
{
    if cs.len() == 0 {
        None
    } else if cs[0].0 == name {
        Some(cs[0].1)
    } else {
        find_in_children(cs.drop_first(), name)
    }
}

/// Arena well-formedness at one node: children point strictly forward and
/// child names are distinct.
pub open spec fn node_wf(t: Seq<NodeV>, i: int) -> bool {
    &&& forall|k: int|
        0 <= k < t[i].children.len() ==> i < (#[trigger] t[i].children[k]).1 < t.len()
    &&& forall|k1: int, k2: int|
        0 <= k1 < k2 < t[i].children.len() ==> (#[trigger] t[i].children[k1]).0 != (
        #[trigger] t[i].children[k2]).0
}

/// Arena well-formedness of a whole tree: a root exists, every node is
/// locally well formed, no node is referenced by two child slots, and the
/// root is referenced by none.
pub open spec fn tree_wf(t: Seq<NodeV>) -> bool {
    &&& t.len() >= 1
    &&& forall|i: int| 0 <= i < t.len() ==> node_wf(t, i)
    &&& forall|i1: int, k1: int, i2: int, k2: int|
        0 <= i1 < t.len() && 0 <= k1 < t[i1].children.len() && 0 <= i2 < t.len() && 0 <= k2
            < t[i2].children.len() && (i1 != i2 || k1 != k2) ==> (#[trigger] t[i1].children[k1]).1
            != (#[trigger] t[i2].children[k2]).1
    &&& forall|i: int, k: int|
        0 <= i < t.len() && 0 <= k < t[i].children.len() ==> (#[trigger] t[i].children[k]).1 != 0
}

/// Resolves a path relative to node `i` to an arena index.
pub open spec fn resolve(t: Seq<NodeV>, i: int, p: PathV) -> Option<int>
    decreases p.len(),
{
    if p.len() == 0 {
        Some(i)
    } else {
        match find_in_children(t[i].children, p[0]) {
            None => None,
            Some(c) => resolve(t, c, p.drop_first()),
        }
    }
}

/// A path exists in the tree.
pub open spec fn contains_path(t: Seq<NodeV>, p: PathV) -> bool {
    resolve(t, 0, p) is Some
}

/// Some path from the root resolves to node `i`.
pub open spec fn node_reachable(t: Seq<NodeV>, i: int) -> bool {
    exists|p: PathV| resolve(t, 0, p) == Some(i)
}

/// The path resolves to a childless node: a file in a tree built from files.
pub open spec fn is_file_path(t: Seq<NodeV>, p: PathV) -> bool {
    match resolve(t, 0, p) {
        Some(i) => t[i].children.len() == 0,
        None => false,
    }
}

/// The path resolves to a node with children.
pub open spec fn is_dir_path(t: Seq<NodeV>, p: PathV) -> bool {
    match resolve(t, 0, p) {
        Some(i) => t[i].children.len() > 0,
        None => false,
    }
}

/// A found child is one of the child slots.
pub proof fn lemma_find_is_child(cs: Seq<(Seq<char>, int)>, name: Seq<char>)
    requires
        find_in_children(cs, name) is Some,
    ensures
        exists|k: int|
            0 <= k < cs.len() && #[trigger] cs[k] == (name, find_in_children(cs, name)->Some_0),
    decreases cs.len(),
{
    if cs.len() > 0 {
        if cs[0].0 == name {
            assert(cs[0] == (name, find_in_children(cs, name)->Some_0));
        } else {
            lemma_find_is_child(cs.drop_first(), name);
            let k0 = choose|k: int|
                0 <= k < cs.drop_first().len() && #[trigger] cs.drop_first()[k] == (
                name,
                find_in_children(cs.drop_first(), name)->Some_0,
                );
            assert(cs[k0 + 1] == (name, find_in_children(cs, name)->Some_0));
        }
    }
}

/// If a child slot holds `name`, the search finds `name`.
pub proof fn lemma_child_is_found(cs: Seq<(Seq<char>, int)>, name: Seq<char>, k: int)
    requires
        0 <= k < cs.len(),
        cs[k].0 == name,
    ensures
        find_in_children(cs, name) is Some,
    decreases cs.len(),
{
    if cs[0].0 != name {
        lemma_child_is_found(cs.drop_first(), name, k - 1);
    }
}

/// In a well-formed node the found index is in range and strictly forward.
pub proof fn lemma_find_in_range(t: Seq<NodeV>, i: int, name: Seq<char>)
    requires
        0 <= i < t.len(),
        node_wf(t, i),
        find_in_children(t[i].children, name) is Some,
    ensures
        i < find_in_children(t[i].children, name)->Some_0 < t.len(),
{
    lemma_find_is_child(t[i].children, name);
}

/// A resolved index is in range (and forward of `i` for non-empty paths).
pub proof fn lemma_resolve_in_range(t: Seq<NodeV>, i: int, p: PathV)
    requires
        forall|j: int| 0 <= j < t.len() ==> node_wf(t, j),
        0 <= i < t.len(),
        resolve(t, i, p) is Some,
    ensures
        i <= resolve(t, i, p)->Some_0 < t.len(),
        p.len() > 0 ==> i < resolve(t, i, p)->Some_0,
    decreases p.len(),
{
    if p.len() > 0 {
        let c = find_in_children(t[i].children, p[0])->Some_0;
        lemma_find_in_range(t, i, p[0]);
        lemma_resolve_in_range(t, c, p.drop_first());
    }
}

/// Resolving a concatenation resolves the first part, then the second.
pub proof fn lemma_resolve_concat(t: Seq<NodeV>, i: int, p: PathV, q: PathV)
    ensures
        resolve(t, i, p + q) == (match resolve(t, i, p) {
            Some(m) => resolve(t, m, q),
            None => None::<int>,
        }),
    decreases p.len(),
{
    if p.len() == 0 {
        assert(p + q =~= q);
    } else {
        assert((p + q)[0] == p[0]);
        match find_in_children(t[i].children, p[0]) {
            None => {
                assert(resolve(t, i, p + q) is None);
            },
            Some(c) => {
                assert((p + q).drop_first() =~= p.drop_first() + q);
                lemma_resolve_concat(t, c, p.drop_first(), q);
            },
        }
    }
}

/// A prefix of a contained path is contained.
pub proof fn lemma_prefix_contained(t: Seq<NodeV>, p: PathV, q: PathV)
    requires
        is_prefix_of(p, q),
        resolve(t, 0, q) is Some,
    ensures
        resolve(t, 0, p) is Some,
{
    let rest = q.subrange(p.len() as int, q.len() as int);
    assert(q =~= p + rest);
    lemma_resolve_concat(t, 0, p, rest);
}

/// Extending a path by one known child resolves to that child.
pub proof fn lemma_resolve_step(t: Seq<NodeV>, p: PathV, i: int, name: Seq<char>)
    requires
        resolve(t, 0, p) == Some(i),
    ensures
        resolve(t, 0, p.push(name)) == find_in_children(t[i].children, name),
{
    lemma_resolve_concat(t, 0, p, seq![name]);
    assert(p.push(name) =~= p + seq![name]);
    assert(resolve(t, i, seq![name]) == (match find_in_children(t[i].children, name) {
        None => None::<int>,
        Some(c) => resolve(t, c, seq![name].drop_first()),
    }));
    assert(seq![name].drop_first() =~= Seq::<Seq<char>>::empty());
}

/// Searching a child list extended by one pair finds old entries first, the
/// new pair only under its name.
pub proof fn lemma_find_push(cs: Seq<(Seq<char>, int)>, pair: (Seq<char>, int), name: Seq<char>)
    ensures
        find_in_children(cs.push(pair), name) == (match find_in_children(cs, name) {
            Some(c) => Some(c),
            None => if pair.0 == name {
                Some(pair.1)
            } else {
                None
            },
        }),
    decreases cs.len(),
{
    if cs.len() == 0 {
        assert(cs.push(pair)[0] == pair);
        if pair.0 != name {
            assert(cs.push(pair).drop_first() =~= Seq::<(Seq<char>, int)>::empty());
        } else {
            assert(find_in_children(cs.push(pair), name) == Some(pair.1));
        }
    } else {
        assert(cs.push(pair)[0] == cs[0]);
        if cs[0].0 != name {
            assert(cs.push(pair).drop_first() =~= cs.drop_first().push(pair));
            lemma_find_push(cs.drop_first(), pair, name);
        }
    }
}

/// Resolving a single-component path is one child lookup.
pub proof fn lemma_resolve_single(t: Seq<NodeV>, i: int, name: Seq<char>)
    ensures
        resolve(t, i, seq![name]) == find_in_children(t[i].children, name),
{
    let p = seq![name];
    assert(p[0] == name);
    assert(p.drop_first() =~= Seq::<Seq<char>>::empty());
    match find_in_children(t[i].children, name) {
        None => {},
        Some(c) => {
            assert(resolve(t, c, p.drop_first()) == Some(c));
        },
    }
}

/// A non-empty path never resolves back to the root.
pub proof fn lemma_nonempty_path_not_root(t: Seq<NodeV>, p: PathV)
    requires
        tree_wf(t),
        p.len() > 0,
        resolve(t, 0, p) is Some,
    ensures
        resolve(t, 0, p) != Some(0int),
{
    let front = p.subrange(0, p.len() - 1);
    let last = p[p.len() - 1];
    assert(p =~= front + seq![last]);
    lemma_resolve_concat(t, 0, front, seq![last]);
    let m = resolve(t, 0, front)->Some_0;
    lemma_resolve_in_range(t, 0, front);
    lemma_resolve_single(t, m, last);
    if resolve(t, 0, p) == Some(0int) {
        assert(find_in_children(t[m].children, last) == Some(0int));
        lemma_find_is_child(t[m].children, last);
        assert(false);
    }
}

/// In a well-formed tree, a node is reached by at most one path.
pub proof fn lemma_path_unique(t: Seq<NodeV>, p1: PathV, p2: PathV, j: int)
    requires
        tree_wf(t),
        resolve(t, 0, p1) == Some(j),
        resolve(t, 0, p2) == Some(j),
    ensures
        p1 == p2,
    decreases p1.len() + p2.len(),
{
    if p1.len() == 0 || p2.len() == 0 {
        assert(j == 0);
        if p1.len() > 0 {
            lemma_nonempty_path_not_root(t, p1);
        }
        if p2.len() > 0 {
            lemma_nonempty_path_not_root(t, p2);
        }
        assert(p1 =~= p2);
    } else {
        let f1 = p1.subrange(0, p1.len() - 1);
        let l1 = p1[p1.len() - 1];
        let f2 = p2.subrange(0, p2.len() - 1);
        let l2 = p2[p2.len() - 1];
        assert(p1 =~= f1 + seq![l1]);
        assert(p2 =~= f2 + seq![l2]);
        lemma_resolve_concat(t, 0, f1, seq![l1]);
        lemma_resolve_concat(t, 0, f2, seq![l2]);
        let m1 = resolve(t, 0, f1)->Some_0;
        let m2 = resolve(t, 0, f2)->Some_0;
        lemma_resolve_in_range(t, 0, f1);
        lemma_resolve_in_range(t, 0, f2);
        lemma_resolve_single(t, m1, l1);
        lemma_resolve_single(t, m2, l2);
        assert(find_in_children(t[m1].children, l1) == Some(j));
        assert(find_in_children(t[m2].children, l2) == Some(j));
        lemma_find_is_child(t[m1].children, l1);
        lemma_find_is_child(t[m2].children, l2);
        let k1 = choose|k: int| 0 <= k < t[m1].children.len() && #[trigger] t[m1].children[k] == (l1, j);
        let k2 = choose|k: int| 0 <= k < t[m2].children.len() && #[trigger] t[m2].children[k] == (l2, j);
        assert(m1 == m2 && k1 == k2);
        lemma_path_unique(t, f1, f2, m1);
    }
}

/// The tree after appending `node` as a fresh child of `parent`.
pub open spec fn spec_add_child(t: Seq<NodeV>, parent: int, node: NodeV) -> Seq<NodeV> {
    t.update(
        parent,
        NodeV {
            name: t[parent].name,
            children: t[parent].children.push((node.name, t.len() as int)),
            size: t[parent].size,
        },
    ).push(node)
}

/// Appending a fresh, distinctly named leaf preserves well-formedness.
pub proof fn lemma_add_child_wf(t: Seq<NodeV>, parent: int, node: NodeV)
    requires
        tree_wf(t),
        0 <= parent < t.len(),
        node.children.len() == 0,
        find_in_children(t[parent].children, node.name) is None,
    ensures
        tree_wf(spec_add_child(t, parent, node)),
{
    let t2 = spec_add_child(t, parent, node);
    let m = t.len() as int;
    assert(t2.len() == t.len() + 1);
    assert(t2[m] == node);
    assert(t2[parent].children == t[parent].children.push((node.name, m)));
    assert forall|i: int| 0 <= i < t2.len() && i != parent && i != m implies t2[i]
        == t[i] by {}
    assert forall|i: int| 0 <= i < t2.len() implies node_wf(t2, i) by {
        if i == m {
            assert(t2[i].children.len() == 0);
        } else if i == parent {
            assert forall|k: int| 0 <= k < t2[i].children.len() implies i < (
            #[trigger] t2[i].children[k]).1 < t2.len() by {
                if k < t[parent].children.len() {
                    assert(t2[i].children[k] == t[parent].children[k]);
                    assert(node_wf(t, parent));
                } else {
                    assert(t2[i].children[k] == (node.name, m));
                }
            }
            assert forall|k1: int, k2: int|
                0 <= k1 < k2 < t2[i].children.len() implies (#[trigger] t2[i].children[k1]).0 != (
            #[trigger] t2[i].children[k2]).0 by {
                assert(t2[i].children[k1] == t[parent].children[k1]);
                if k2 < t[parent].children.len() {
                    assert(t2[i].children[k2] == t[parent].children[k2]);
                    assert(node_wf(t, parent));
                } else {
                    assert(t2[i].children[k2] == (node.name, m));
                    if t[parent].children[k1].0 == node.name {
                        lemma_child_is_found(t[parent].children, node.name, k1);
                    }
                }
            }
        } else {
            assert(t2[i] == t[i]);
            assert(node_wf(t, i));
            assert forall|k: int| 0 <= k < t2[i].children.len() implies i < (
            #[trigger] t2[i].children[k]).1 < t2.len() by {
                assert(t[i].children[k] == t2[i].children[k]);
            }
        }
    }
    let ghost slot = |i: int, k: int|
        if i == parent && k == t[parent].children.len() {
            (node.name, m)
        } else {
            t[i].children[k]
        };
    assert forall|i1: int, k1: int, i2: int, k2: int|
        0 <= i1 < t2.len() && 0 <= k1 < t2[i1].children.len() && 0 <= i2 < t2.len() && 0 <= k2
            < t2[i2].children.len() && (i1 != i2 || k1 != k2) implies (
    #[trigger] t2[i1].children[k1]).1 != (#[trigger] t2[i2].children[k2]).1 by {
        assert(t2[i1].children[k1] == slot(i1, k1));
        assert(t2[i2].children[k2] == slot(i2, k2));
        if i1 == parent && k1 == t[parent].children.len() {
            if !(i2 == parent && k2 == t[parent].children.len()) {
                assert(node_wf(t, i2));
                assert(t[i2].children[k2].1 < m);
            }
        } else if i2 == parent && k2 == t[parent].children.len() {
            assert(node_wf(t, i1));
            assert(t[i1].children[k1].1 < m);
        }
    }
    assert forall|i: int, k: int|
        0 <= i < t2.len() && 0 <= k < t2[i].children.len() implies (
    #[trigger] t2[i].children[k]).1 != 0 by {
        assert(t2[i].children[k] == slot(i, k));
    }
}

/// How resolution changes when a fresh leaf is appended: old paths resolve as
/// before, and the only new path is the parent's path extended by the new
/// name, which resolves to the new index.
pub proof fn lemma_add_child_resolve(t: Seq<NodeV>, parent: int, node: NodeV, i: int, p: PathV)
    requires
        tree_wf(t),
        0 <= parent < t.len(),
        node.children.len() == 0,
        find_in_children(t[parent].children, node.name) is None,
        0 <= i < t.len(),
    ensures
        resolve(t, i, p) is Some ==> resolve(spec_add_child(t, parent, node), i, p) == resolve(
            t,
            i,
            p,
        ),
        resolve(spec_add_child(t, parent, node), i, p) is Some ==> resolve(t, i, p) is Some || (
        resolve(spec_add_child(t, parent, node), i, p) == Some(t.len() as int) && p.len() > 0
            && p.last() == node.name && resolve(t, i, p.subrange(0, p.len() - 1)) == Some(parent)),
    decreases p.len(),
{
    let t2 = spec_add_child(t, parent, node);
    if p.len() == 0 {
    } else {
        let name = p[0];
        let rest = p.drop_first();
        if i == parent {
            lemma_find_push(t[parent].children, (node.name, t.len() as int), name);
        } else {
            assert(t2[i].children == t[i].children);
        }
        match find_in_children(t[i].children, name) {
            Some(c) => {
                lemma_find_in_range(t, i, name);
                assert(find_in_children(t2[i].children, name) == Some(c));
                lemma_add_child_resolve(t, parent, node, c, rest);
                if resolve(t2, i, p) is Some && !(resolve(t, i, p) is Some) {
                    assert(resolve(t2, c, rest) == Some(t.len() as int) && rest.len() > 0);
                    assert(p.subrange(0, p.len() - 1) =~= seq![name] + rest.subrange(
                        0,
                        rest.len() - 1,
                    ));
                    lemma_resolve_concat(t, i, seq![name], rest.subrange(0, rest.len() - 1));
                    lemma_resolve_single(t, i, name);
                    assert(resolve(t, i, seq![name]) == Some(c));
                    assert(p.last() == rest.last());
                }
            },
            None => {
                if i == parent && name == node.name {
                    assert(find_in_children(t2[i].children, name) == Some(t.len() as int));
                    if rest.len() == 0 {
                        assert(resolve(t2, i, p) == Some(t.len() as int));
                        assert(p.subrange(0, p.len() - 1) =~= Seq::<Seq<char>>::empty());
                        assert(p.last() == node.name);
                    } else {
                        assert(t2[t.len() as int].children =~= node.children);
                        assert(find_in_children(node.children, rest[0]) is None);
                        assert(resolve(t2, t.len() as int, rest) is None);
                    }
                } else {
                    assert(find_in_children(t2[i].children, name) is None);
                }
            },
        }
    }
}

/// One arena node: a component name, the ordered `(name, index)` child list,
/// and the recorded size. In the local tree a childless node is a file; the
/// size of an interior node is meaningless.
#[derive(Debug)]
pub struct Node {
    pub name: String,
    pub children: Vec<(String, usize)>,
    pub size: Option<u32>,
}

impl View for Node {
    type V = NodeV;

    open spec fn view(&self) -> NodeV {
        NodeV {
            name: self.name@,
            children: Seq::new(
                self.children@.len(),
                |i: int| (self.children@[i].0@, self.children@[i].1 as int),
            ),
            size: self.size,
        }
    }
}

impl Node {
    /// A fresh leaf node.
    pub fn new(name: String, size: Option<u32>) -> (r: Node)
        ensures
            r@.name == name@,
            r@.children.len() == 0,
            r@.size == size,
    {
        let r = Node { name, children: Vec::new(), size };
        proof {
            assert(r@.children =~= Seq::<(Seq<char>, int)>::empty());
        }
        r
    }
}

/// The local tree: an arena of nodes built from a list of file paths.
#[derive(Debug)]
pub struct Tree {
    pub nodes: Vec<Node>,
}

impl View for Tree {
    type V = Seq<NodeV>;

    open spec fn view(&self) -> Seq<NodeV> {
        Seq::new(self.nodes@.len(), |i: int| self.nodes@[i]@)
    }
}

/// The component path of input `j`.
pub open spec fn input_path(paths: Seq<(Vec<String>, u32)>, j: int) -> PathV {
    paths[j].0.deep_view()
}

/// Input `j`'s path is non-empty and no earlier input lies at or below it:
/// its node is created, with its size, when input `j` is folded in.
pub open spec fn first_at_path(paths: Seq<(Vec<String>, u32)>, j: int) -> bool {
    input_path(paths, j).len() > 0 && forall|j2: int|
        0 <= j2 < j ==> !is_prefix_of(input_path(paths, j), #[trigger] input_path(paths, j2))
}

/// Appending a fresh leaf moves no existing path and changes no existing
/// node's name, size or child count, except the parent's grown child list.
pub proof fn lemma_add_child_keeps(t: Seq<NodeV>, parent: int, node: NodeV, p: PathV)
    requires
        tree_wf(t),
        0 <= parent < t.len(),
        node.children.len() == 0,
        find_in_children(t[parent].children, node.name) is None,
        resolve(t, 0, p) is Some,
    ensures
        resolve(spec_add_child(t, parent, node), 0, p) == resolve(t, 0, p),
        spec_add_child(t, parent, node)[resolve(t, 0, p)->Some_0].size == t[resolve(
            t,
            0,
            p,
        )->Some_0].size,
{
    lemma_add_child_resolve(t, parent, node, 0, p);
    lemma_resolve_in_range(t, 0, p);
}

impl Tree {
    /// A tree holding only the root; `capacity` is an allocation hint.
    pub fn new(capacity: usize) -> (r: Tree)
        ensures
            tree_wf(r@),
            r@.len() == 1,
            r@[0].children.len() == 0,
            r@[0].name == "/"@,
    {
        let mut nodes: Vec<Node> = Vec::with_capacity(capacity);
        nodes.push(Node::new(String::from_str("/"), None));
        let r = Tree { nodes };
        proof {
            assert(r@[0].children =~= Seq::<(Seq<char>, int)>::empty());
        }
        r
    }

    /// Appends `node` as a child of `parent` and returns its index.
    pub fn add_child_to(&mut self, node: Node, parent: usize) -> (r: usize)
        requires
            tree_wf(old(self)@),
            parent < old(self)@.len(),
            node@.children.len() == 0,
            find_in_children(old(self)@[parent as int].children, node@.name) is None,
        ensures
            r == old(self)@.len(),
            final(self)@ == spec_add_child(old(self)@, parent as int, node@),
            tree_wf(final(self)@),
    {
        let ghost nv = node@;
        let ghost t0 = self@;
        let index = self.nodes.len();
        let name = node.name.clone();
        self.nodes[parent].children.push((name, index));
        self.nodes.push(node);
        proof {
            assert(self@ =~~= spec_add_child(t0, parent as int, nv));
            lemma_add_child_wf(t0, parent as int, nv);
        }
        index
    }

    /// Builds the tree whose leaves are the given file paths (component
    /// lists) and whose interior nodes are their directory prefixes. The
    /// size recorded on a node is the size of the input that created it.
    pub fn from_path_and_sizes(paths: &Vec<(Vec<String>, u32)>) -> (r: Tree)
        ensures
            tree_wf(r@),
            r@[0].name == "/"@,
            forall|p: PathV|
                contains_path(r@, p) <==> (p.len() == 0 || exists|j: int|
                    0 <= j < paths@.len() && is_prefix_of(
                        p,
                        #[trigger] paths@[j].0.deep_view(),
                    )),
            forall|i: int| 1 <= i < r@.len() ==> #[trigger] node_reachable(r@, i),
            forall|j: int|
                0 <= j < paths@.len() && #[trigger] first_at_path(paths@, j) ==> (resolve(
                    r@,
                    0,
                    input_path(paths@, j),
                ) matches Some(nd) && r@[nd].size == Some(paths@[j].1)),
    {
        let mut tree = Tree::new(paths.len());
        proof {
            assert forall|p: PathV| contains_path(tree@, p) implies p.len() == 0 by {
                if p.len() > 0 {
                    assert(find_in_children(tree@[0].children, p[0]) is None);
                }
            }
        }
        let n = paths.len();
        let mut j: usize = 0;
        while j < n
            invariant
                n == paths@.len(),
                j <= n,
                tree_wf(tree@),
                tree@[0].name == "/"@,
                forall|p: PathV|
                    contains_path(tree@, p) <==> (p.len() == 0 || exists|jj: int|
                        0 <= jj < j && is_prefix_of(p, #[trigger] paths@[jj].0.deep_view())),
                forall|i: int| 1 <= i < tree@.len() ==> #[trigger] node_reachable(tree@, i),
                forall|j2: int|
                    0 <= j2 < j && #[trigger] first_at_path(paths@, j2) ==> (resolve(
                        tree@,
                        0,
                        input_path(paths@, j2),
                    ) matches Some(nd) && tree@[nd].size == Some(paths@[j2].1)),
            decreases n - j,
        {
            let ghost full = paths@[j as int].0.deep_view();
            let m = paths[j].0.len();
            let size = paths[j].1;
            let mut parent: usize = 0;
            let mut c: usize = 0;
            proof {
                assert(full.subrange(0, 0) =~= Seq::<Seq<char>>::empty());
            }
            while c < m
                invariant
                    n == paths@.len(),
                    j < n,
                    full == paths@[j as int].0.deep_view(),
                    m == full.len(),
                    c <= m,
                    tree_wf(tree@),
                    tree@[0].name == "/"@,
                    parent < tree@.len(),
                    resolve(tree@, 0, full.subrange(0, c as int)) == Some(parent as int),
                    forall|p: PathV|
                        contains_path(tree@, p) <==> (p.len() == 0 || (exists|jj: int|
                            0 <= jj < j && is_prefix_of(p, #[trigger] paths@[jj].0.deep_view()))
                            || (p.len() > 0 && is_prefix_of(p, full.subrange(0, c as int)))),
                    forall|i: int|
                        1 <= i < tree@.len() ==> #[trigger] node_reachable(tree@, i),
                    forall|j2: int|
                        0 <= j2 < j && #[trigger] first_at_path(paths@, j2) ==> (resolve(
                            tree@,
                            0,
                            input_path(paths@, j2),
                        ) matches Some(nd) && tree@[nd].size == Some(paths@[j2].1)),
                    c == m && first_at_path(paths@, j as int) ==> (resolve(
                        tree@,
                        0,
                        full,
                    ) matches Some(nd) && tree@[nd].size == Some(size)),
                decreases m - c,
            {
                let name = &paths[j].0[c];
                let ghost pre = full.subrange(0, c as int);
                proof {
                    assert(full[c as int] == paths@[j as int].0@[c as int]@);
                    assert(pre.push(name@) =~= full.subrange(0, c + 1));
                }
                match tree.find_child_by_name(parent, name) {
                    Some(idx) => {
                        proof {
                            lemma_resolve_step(tree@, pre, parent as int, name@);
                            lemma_find_in_range(tree@, parent as int, name@);
                            assert(resolve(tree@, 0, full.subrange(0, c + 1)) == Some(idx as int));
                            assert forall|p: PathV|
                                contains_path(tree@, p) <==> (p.len() == 0 || (exists|jj: int|
                                    0 <= jj < j && is_prefix_of(
                                        p,
                                        #[trigger] paths@[jj].0.deep_view(),
                                    )) || (p.len() > 0 && is_prefix_of(
                                    p,
                                    full.subrange(0, c + 1),
                                ))) by {
                                if p.len() > 0 && is_prefix_of(p, full.subrange(0, c + 1)) {
                                    if p.len() <= c {
                                        assert(p =~= pre.subrange(0, p.len() as int));
                                        assert(is_prefix_of(p, pre));
                                    } else {
                                        assert(p =~= full.subrange(0, c + 1));
                                        assert(contains_path(tree@, p));
                                    }
                                }
                                if p.len() > 0 && is_prefix_of(p, pre) {
                                    assert(p =~= full.subrange(0, c + 1).subrange(
                                        0,
                                        p.len() as int,
                                    ));
                                    assert(is_prefix_of(p, full.subrange(0, c + 1)));
                                }
                            }
                            if c + 1 == m && first_at_path(paths@, j as int) {
                                assert(full.subrange(0, c + 1) =~= full);
                                assert(contains_path(tree@, full));
                                assert(!(full.len() > 0 && is_prefix_of(full, pre)));
                                let jj = choose|jj: int|
                                    0 <= jj < j && is_prefix_of(
                                        full,
                                        #[trigger] paths@[jj].0.deep_view(),
                                    );
                                assert(input_path(paths@, jj) == paths@[jj].0.deep_view());
                                assert(is_prefix_of(input_path(paths@, j as int), input_path(
                                    paths@,
                                    jj,
                                )));
                                assert(false);
                            }
                        }
                        parent = idx;
                    },
                    None => {
                        let node = Node::new(name.clone(), Some(size));
                        let ghost t0 = tree@;
                        let ghost nv = node@;
                        let idx = tree.add_child_to(node, parent);
                        proof {
                            let t2 = tree@;
                            assert forall|p: PathV|
                                contains_path(t2, p) <==> (p.len() == 0 || (exists|jj: int|
                                    0 <= jj < j && is_prefix_of(
                                        p,
                                        #[trigger] paths@[jj].0.deep_view(),
                                    )) || (p.len() > 0 && is_prefix_of(
                                    p,
                                    full.subrange(0, c + 1),
                                ))) by {
                                lemma_add_child_resolve(t0, parent as int, nv, 0, p);
                                if contains_path(t2, p) {
                                    if contains_path(t0, p) {
                                        if p.len() > 0 && is_prefix_of(p, pre) {
                                            assert(p =~= full.subrange(0, c + 1).subrange(
                                                0,
                                                p.len() as int,
                                            ));
                                            assert(is_prefix_of(p, full.subrange(0, c + 1)));
                                        }
                                    } else {
                                        let front = p.subrange(0, p.len() - 1);
                                        lemma_path_unique(t0, front, pre, parent as int);
                                        assert(p =~= pre.push(nv.name));
                                        assert(p =~= full.subrange(0, c + 1));
                                        assert(full.subrange(0, c + 1).subrange(0, c + 1)
                                            =~= full.subrange(0, c + 1));
                                        assert(is_prefix_of(p, full.subrange(0, c + 1)));
                                    }
                                } else {
                                    if p.len() == 0 {
                                        assert(contains_path(t2, p));
                                    } else if exists|jj: int|
                                        0 <= jj < j && is_prefix_of(
                                            p,
                                            #[trigger] paths@[jj].0.deep_view(),
                                        ) {
                                        assert(contains_path(t0, p));
                                        assert(contains_path(t2, p));
                                    } else if p.len() > 0 && is_prefix_of(
                                        p,
                                        full.subrange(0, c + 1),
                                    ) {
                                        if p.len() <= c {
                                            assert(p =~= pre.subrange(0, p.len() as int));
                                            assert(is_prefix_of(p, pre));
                                            assert(contains_path(t0, p));
                                            assert(contains_path(t2, p));
                                        } else {
                                            assert(p =~= pre.push(nv.name));
                                            lemma_add_child_resolve(t0, parent as int, nv, 0, pre);
                                            assert(resolve(t2, 0, pre) == Some(parent as int));
                                            lemma_resolve_step(t2, pre, parent as int, nv.name);
                                            lemma_find_push(
                                                t0[parent as int].children,
                                                (nv.name, t0.len() as int),
                                                nv.name,
                                            );
                                            assert(t2[parent as int].children == t0[parent as int].children.push(
                                                (nv.name, t0.len() as int),
                                            ));
                                            assert(contains_path(t2, p));
                                        }
                                    }
                                }
                            }
                            lemma_add_child_resolve(t0, parent as int, nv, 0, pre);
                            assert(resolve(tree@, 0, pre) == Some(parent as int));
                            lemma_resolve_step(tree@, pre, parent as int, nv.name);
                            lemma_find_push(
                                t0[parent as int].children,
                                (nv.name, t0.len() as int),
                                nv.name,
                            );
                            assert(resolve(tree@, 0, full.subrange(0, c + 1)) == Some(
                                idx as int,
                            ));
                            assert(tree@[0].name == t0[0].name);
                            assert forall|i: int|
                                1 <= i < tree@.len() implies #[trigger] node_reachable(
                                tree@,
                                i,
                            ) by {
                                if i < t0.len() {
                                    assert(node_reachable(t0, i));
                                    let p0 = choose|p: PathV| resolve(t0, 0, p) == Some(i);
                                    lemma_add_child_resolve(t0, parent as int, nv, 0, p0);
                                    assert(resolve(tree@, 0, p0) == Some(i));
                                } else {
                                    assert(full.subrange(0, c + 1) =~= pre.push(nv.name));
                                    assert(resolve(tree@, 0, full.subrange(0, c + 1)) == Some(i));
                                }
                            }
                            assert forall|j2: int|
                                0 <= j2 < j && #[trigger] first_at_path(paths@, j2) implies (
                            resolve(tree@, 0, input_path(paths@, j2)) matches Some(nd)
                                && tree@[nd].size == Some(paths@[j2].1)) by {
                                lemma_add_child_keeps(
                                    t0,
                                    parent as int,
                                    nv,
                                    input_path(paths@, j2),
                                );
                            }
                            if c + 1 == m {
                                assert(full.subrange(0, c + 1) =~= full);
                                assert(resolve(tree@, 0, full) == Some(idx as int));
                                assert(tree@[idx as int] == nv);
                                assert(nv.size == Some(size));
                            }
                        }
                        parent = idx;
                    },
                }
                c = c + 1;
            }
            proof {
                assert(full.subrange(0, m as int) =~= full);
                assert forall|p: PathV|
                    contains_path(tree@, p) <==> (p.len() == 0 || exists|jj: int|
                        0 <= jj < j + 1 && is_prefix_of(
                            p,
                            #[trigger] paths@[jj].0.deep_view(),
                        )) by {}
                assert forall|j2: int|
                    0 <= j2 < j + 1 && #[trigger] first_at_path(paths@, j2) implies (resolve(
                    tree@,
                    0,
                    input_path(paths@, j2),
                ) matches Some(nd) && tree@[nd].size == Some(paths@[j2].1)) by {
                    if j2 == j {
                        assert(input_path(paths@, j as int) == full);
                    }
                }
            }
            j = j + 1;
        }
        tree
    }

    /// Looks `name` up in `parent`'s child list.
    pub fn find_child_by_name(&self, parent: usize, name: &String) -> (r: Option<usize>)
        requires
            parent < self@.len(),
        ensures
            (match r {
                Some(c) => Some(c as int),
                None => None,
            }) == find_in_children(self@[parent as int].children, name@),
    {
        let n = self.nodes[parent].children.len();
        proof {
            let cs = self@[parent as int].children;
            assert(cs.subrange(0, cs.len() as int) =~= cs);
        }
        let mut k: usize = 0;
        while k < n
            invariant
                parent < self@.len(),
                n == self@[parent as int].children.len(),
                k <= n,
                find_in_children(
                    self@[parent as int].children.subrange(
                        k as int,
                        self@[parent as int].children.len() as int,
                    ),
                    name@,
                ) == find_in_children(self@[parent as int].children, name@),
            decreases n - k,
        {
            let ghost cs = self@[parent as int].children;
            if self.nodes[parent].children[k].0.eq(name) {
                proof {
                    assert(cs.subrange(k as int, cs.len() as int)[0] == cs[k as int]);
                }
                return Some(self.nodes[parent].children[k].1);
            }
            proof {
                assert(cs.subrange(k as int, cs.len() as int)[0] == cs[k as int]);
                assert(cs.subrange(k as int, cs.len() as int).drop_first() =~= cs.subrange(
                    k + 1,
                    cs.len() as int,
                ));
            }
            k = k + 1;
        }
        proof {
            let ghost cs = self@[parent as int].children;
            assert(cs.subrange(n as int, cs.len() as int).len() == 0);
        }
        None
    }
}

/// One entry of a remote directory listing, as plain values: the transport
/// shell turns each RPC listing row into one of these.
#[derive(Debug, Clone)]
pub enum DirEntry {
    /// A file with its name and size in bytes.
    File(String, u32),
    /// A directory name.
    Dir(String),
}

impl DirEntry {
    /// The entry's name.
    pub open spec fn spec_name(&self) -> Seq<char> {
        match self {
            DirEntry::File(name, _) => name@,
            DirEntry::Dir(name) => name@,
        }
    }

    /// The size the entry's node records: the listed size for a file,
    /// none for a directory.
    pub open spec fn spec_node_size(&self) -> Option<u32> {
        match self {
            DirEntry::File(_, size) => Some(*size),
            DirEntry::Dir(_) => None,
        }
    }
}

/// One node of the remote tree; a directory has no size, a file always has
/// one (the listing discriminates, not the child count).
#[derive(Debug)]
pub struct RemoteNode {
    pub name: String,
    pub children: Vec<(String, usize)>,
    pub size: Option<u32>,
}

impl View for RemoteNode {
    type V = NodeV;

    open spec fn view(&self) -> NodeV {
        NodeV {
            name: self.name@,
            children: Seq::new(
                self.children@.len(),
                |i: int| (self.children@[i].0@, self.children@[i].1 as int),
            ),
            size: self.size,
        }
    }
}

impl RemoteNode {
    /// A fresh leaf node.
    pub fn new(name: String, size: Option<u32>) -> (r: RemoteNode)
        ensures
            r@.name == name@,
            r@.children.len() == 0,
            r@.size == size,
    {
        let r = RemoteNode { name, children: Vec::new(), size };
        proof {
            assert(r@.children =~= Seq::<(Seq<char>, int)>::empty());
        }
        r
    }
}

/// The device-side tree, built breadth-first from directory listings.
#[derive(Debug)]
pub struct RemoteTree {
    pub nodes: Vec<RemoteNode>,
}

impl View for RemoteTree {
    type V = Seq<NodeV>;

    open spec fn view(&self) -> Seq<NodeV> {
        Seq::new(self.nodes@.len(), |i: int| self.nodes@[i]@)
    }
}

/// `name` occurs in the ignore list.
pub open spec fn in_ignore(ignore: Seq<String>, name: Seq<char>) -> bool {
    exists|k: int| 0 <= k < ignore.len() && ignore[k]@ == name
}

impl RemoteTree {
    /// A tree holding only the root.
    pub fn new() -> (r: RemoteTree)
        ensures
            tree_wf(r@),
            r@.len() == 1,
            r@[0].children.len() == 0,
            r@[0].name == "/"@,
    {
        let mut nodes: Vec<RemoteNode> = Vec::new();
        nodes.push(RemoteNode::new(String::from_str("/"), None));
        let r = RemoteTree { nodes };
        proof {
            assert(r@[0].children =~= Seq::<(Seq<char>, int)>::empty());
        }
        r
    }

    /// Appends `node` as a child of `parent` and returns its index.
    pub fn add_child_to(&mut self, node: RemoteNode, parent: usize) -> (r: usize)
        requires
            tree_wf(old(self)@),
            parent < old(self)@.len(),
            node@.children.len() == 0,
            find_in_children(old(self)@[parent as int].children, node@.name) is None,
        ensures
            r == old(self)@.len(),
            final(self)@ == spec_add_child(old(self)@, parent as int, node@),
            tree_wf(final(self)@),
    {
        let ghost nv = node@;
        let ghost t0 = self@;
        let index = self.nodes.len();
        let name = node.name.clone();
        self.nodes[parent].children.push((name, index));
        self.nodes.push(node);
        proof {
            assert(self@ =~~= spec_add_child(t0, parent as int, nv));
            lemma_add_child_wf(t0, parent as int, nv);
        }
        index
    }

    /// Looks `name` up in `parent`'s child list.
    pub fn find_child_by_name(&self, parent: usize, name: &String) -> (r: Option<usize>)
        requires
            parent < self@.len(),
        ensures
            (match r {
                Some(c) => Some(c as int),
                None => None,
            }) == find_in_children(self@[parent as int].children, name@),
    {
        let n = self.nodes[parent].children.len();
        proof {
            let cs = self@[parent as int].children;
            assert(cs.subrange(0, cs.len() as int) =~= cs);
        }
        let mut k: usize = 0;
        while k < n
            invariant
                parent < self@.len(),
                n == self@[parent as int].children.len(),
                k <= n,
                find_in_children(
                    self@[parent as int].children.subrange(
                        k as int,
                        self@[parent as int].children.len() as int,
                    ),
                    name@,
                ) == find_in_children(self@[parent as int].children, name@),
            decreases n - k,
        {
            let ghost cs = self@[parent as int].children;
            if self.nodes[parent].children[k].0.eq(name) {
                proof {
                    assert(cs.subrange(k as int, cs.len() as int)[0] == cs[k as int]);
                }
                return Some(self.nodes[parent].children[k].1);
            }
            proof {
                assert(cs.subrange(k as int, cs.len() as int)[0] == cs[k as int]);
                assert(cs.subrange(k as int, cs.len() as int).drop_first() =~= cs.subrange(
                    k + 1,
                    cs.len() as int,
                ));
            }
            k = k + 1;
        }
        proof {
            let ghost cs = self@[parent as int].children;
            assert(cs.subrange(n as int, cs.len() as int).len() == 0);
        }
        None
    }

    /// Folds one directory listing into the tree under `parent`. Names in
    /// `ignore` are skipped when `parent` is the traversal root; a name
    /// already present under `parent` is kept as it is. Returns the arena
    /// indices of the directories that were added, for the caller's
    /// breadth-first queue.
    pub fn apply_listing(&mut self, parent: usize, entries: &Vec<DirEntry>, ignore: &Vec<String>)
        -> (dirs: Vec<usize>)
        requires
            tree_wf(old(self)@),
            parent < old(self)@.len(),
        ensures
            tree_wf(final(self)@),
            final(self)@.len() >= old(self)@.len(),
            parent < final(self)@.len(),
            forall|i: int|
                0 <= i < old(self)@.len() && i != parent ==> final(self)@[i] == old(self)@[i],
            forall|e: int|
                0 <= e < entries@.len() ==> (find_in_children(
                    final(self)@[parent as int].children,
                    (#[trigger] entries@[e]).spec_name(),
                ) is Some <==> (find_in_children(
                    old(self)@[parent as int].children,
                    entries@[e].spec_name(),
                ) is Some || !(parent == 0 && in_ignore(ignore@, entries@[e].spec_name())))),
            forall|k: int|
                0 <= k < dirs@.len() ==> {
                    &&& old(self)@.len() <= #[trigger] dirs@[k] < final(self)@.len()
                    &&& final(self)@[dirs@[k] as int].size is None
                    &&& final(self)@[dirs@[k] as int].children.len() == 0
                },
            forall|e: int|
                0 <= e < entries@.len() && !(parent == 0 && in_ignore(
                    ignore@,
                    (#[trigger] entries@[e]).spec_name(),
                )) && find_in_children(
                    old(self)@[parent as int].children,
                    entries@[e].spec_name(),
                ) is None && (forall|e2: int|
                    0 <= e2 < entries@.len() && e2 != e ==> (#[trigger] entries@[e2]).spec_name()
                        != entries@[e].spec_name()) ==> (find_in_children(
                    final(self)@[parent as int].children,
                    entries@[e].spec_name(),
                ) matches Some(c) && old(self)@.len() <= c < final(self)@.len()
                    && final(self)@[c].size == entries@[e].spec_node_size()
                    && final(self)@[c].children.len() == 0),
    {
        let mut dirs: Vec<usize> = Vec::new();
        let n = entries.len();
        let ghost t0 = self@;
        let mut e: usize = 0;
        while e < n
            invariant
                tree_wf(self@),
                parent < t0.len(),
                n == entries@.len(),
                e <= n,
                self@.len() >= t0.len(),
                forall|i: int| 0 <= i < t0.len() && i != parent ==> self@[i] == t0[i],
                forall|nm: Seq<char>|
                    #[trigger] find_in_children(self@[parent as int].children, nm) is Some <==> (
                    find_in_children(t0[parent as int].children, nm) is Some || exists|ee: int|
                        0 <= ee < e && (#[trigger] entries@[ee]).spec_name() == nm && !(parent == 0
                            && in_ignore(ignore@, nm))),
                forall|k: int|
                    0 <= k < dirs@.len() ==> t0.len() <= #[trigger] dirs@[k] < self@.len() && self@[
                        dirs@[k] as int
                    ].size is None && self@[dirs@[k] as int].children.len() == 0,
                forall|nm: Seq<char>|
                    (#[trigger] find_in_children(self@[parent as int].children, nm) is Some
                        && find_in_children(t0[parent as int].children, nm) is None) ==> {
                        let c = find_in_children(self@[parent as int].children, nm)->Some_0;
                        &&& t0.len() <= c < self@.len()
                        &&& self@[c].children.len() == 0
                        &&& exists|ee: int|
                            0 <= ee < e && (#[trigger] entries@[ee]).spec_name() == nm && self@[
                                c
                            ].size == entries@[ee].spec_node_size()
                    },
            decreases n - e,
        {
            let ghost tpre = self@;
            let entry = &entries[e];
            let name: &String = match entry {
                DirEntry::File(name, _) => name,
                DirEntry::Dir(name) => name,
            };
            proof {
                assert(name@ == entries@[e as int].spec_name());
            }
            let skip = if parent == 0 {
                contains_string(ignore, name)
            } else {
                false
            };
            if !skip {
                match self.find_child_by_name(parent, name) {
                    Some(_) => {},
                    None => {
                        match entry {
                            DirEntry::File(name2, size) => {
                                let node = RemoteNode::new(name2.clone(), Some(*size));
                                let ghost nv = node@;
                                self.add_child_to(node, parent);
                                proof {
                                    lemma_apply_listing_step(
                                        t0,
                                        tpre,
                                        self@,
                                        parent as int,
                                        nv.name,
                                        entries@,
                                        ignore@,
                                        e as int,
                                    );
                                    assert forall|nm: Seq<char>|
                                        (#[trigger] find_in_children(
                                            self@[parent as int].children,
                                            nm,
                                        ) is Some && find_in_children(
                                            t0[parent as int].children,
                                            nm,
                                        ) is None) implies {
                                        let c = find_in_children(
                                            self@[parent as int].children,
                                            nm,
                                        )->Some_0;
                                        &&& t0.len() <= c < self@.len()
                                        &&& self@[c].children.len() == 0
                                        &&& exists|ee: int|
                                            0 <= ee < e + 1 && (
                                            #[trigger] entries@[ee]).spec_name() == nm && self@[
                                                c
                                            ].size == entries@[ee].spec_node_size()
                                    } by {
                                        lemma_find_push(
                                            tpre[parent as int].children,
                                            (nv.name, tpre.len() as int),
                                            nm,
                                        );
                                        if find_in_children(
                                            tpre[parent as int].children,
                                            nm,
                                        ) is Some {
                                            let c0 = find_in_children(
                                                tpre[parent as int].children,
                                                nm,
                                            )->Some_0;
                                            assert(self@[c0] == tpre[c0]);
                                            let ee0 = choose|ee: int|
                                                0 <= ee < e && (
                                                #[trigger] entries@[ee]).spec_name() == nm
                                                    && tpre[c0].size == entries@[
                                                    ee
                                                ].spec_node_size();
                                            assert(0 <= ee0 < e + 1 && entries@[ee0].spec_name()
                                                == nm && self@[c0].size == entries@[
                                                ee0
                                            ].spec_node_size());
                                        } else {
                                            assert(self@[tpre.len() as int] == nv);
                                            assert(nv.size == entries@[e as int].spec_node_size());
                                            assert(nv.name == entries@[e as int].spec_name());
                                            assert(0 <= e < e + 1 && entries@[
                                                e as int
                                            ].spec_name() == nm && self@[tpre.len() as int].size
                                                == entries@[e as int].spec_node_size());
                                        }
                                    }
                                }
                            },
                            DirEntry::Dir(name2) => {
                                let node = RemoteNode::new(name2.clone(), None);
                                let ghost nv = node@;
                                let idx = self.add_child_to(node, parent);
                                proof {
                                    lemma_apply_listing_step(
                                        t0,
                                        tpre,
                                        self@,
                                        parent as int,
                                        nv.name,
                                        entries@,
                                        ignore@,
                                        e as int,
                                    );
                                    assert forall|nm: Seq<char>|
                                        (#[trigger] find_in_children(
                                            self@[parent as int].children,
                                            nm,
                                        ) is Some && find_in_children(
                                            t0[parent as int].children,
                                            nm,
                                        ) is None) implies {
                                        let c = find_in_children(
                                            self@[parent as int].children,
                                            nm,
                                        )->Some_0;
                                        &&& t0.len() <= c < self@.len()
                                        &&& self@[c].children.len() == 0
                                        &&& exists|ee: int|
                                            0 <= ee < e + 1 && (
                                            #[trigger] entries@[ee]).spec_name() == nm && self@[
                                                c
                                            ].size == entries@[ee].spec_node_size()
                                    } by {
                                        lemma_find_push(
                                            tpre[parent as int].children,
                                            (nv.name, tpre.len() as int),
                                            nm,
                                        );
                                        if find_in_children(
                                            tpre[parent as int].children,
                                            nm,
                                        ) is Some {
                                            let c0 = find_in_children(
                                                tpre[parent as int].children,
                                                nm,
                                            )->Some_0;
                                            assert(self@[c0] == tpre[c0]);
                                            let ee0 = choose|ee: int|
                                                0 <= ee < e && (
                                                #[trigger] entries@[ee]).spec_name() == nm
                                                    && tpre[c0].size == entries@[
                                                    ee
                                                ].spec_node_size();
                                            assert(0 <= ee0 < e + 1 && entries@[ee0].spec_name()
                                                == nm && self@[c0].size == entries@[
                                                ee0
                                            ].spec_node_size());
                                        } else {
                                            assert(self@[tpre.len() as int] == nv);
                                            assert(nv.size == entries@[e as int].spec_node_size());
                                            assert(nv.name == entries@[e as int].spec_name());
                                            assert(0 <= e < e + 1 && entries@[
                                                e as int
                                            ].spec_name() == nm && self@[tpre.len() as int].size
                                                == entries@[e as int].spec_node_size());
                                        }
                                    }
                                }
                                dirs.push(idx);
                            },
                        }
                    },
                }
            }
            e = e + 1;
        }
        proof {
            assert forall|e2: int| 0 <= e2 < entries@.len() implies (find_in_children(
                self@[parent as int].children,
                (#[trigger] entries@[e2]).spec_name(),
            ) is Some <==> (find_in_children(
                t0[parent as int].children,
                entries@[e2].spec_name(),
            ) is Some || !(parent == 0 && in_ignore(ignore@, entries@[e2].spec_name())))) by {
                let nm = entries@[e2].spec_name();
                if !(parent == 0 && in_ignore(ignore@, nm)) {
                    assert(0 <= e2 < entries@.len() && (#[trigger] entries@[e2]).spec_name() == nm
                        && !(parent == 0 && in_ignore(ignore@, nm)));
                    assert(find_in_children(self@[parent as int].children, nm) is Some);
                }
            }
            assert forall|e2: int|
                0 <= e2 < entries@.len() && !(parent == 0 && in_ignore(
                    ignore@,
                    (#[trigger] entries@[e2]).spec_name(),
                )) && find_in_children(
                    t0[parent as int].children,
                    entries@[e2].spec_name(),
                ) is None && (forall|e3: int|
                    0 <= e3 < entries@.len() && e3 != e2 ==> (#[trigger] entries@[e3]).spec_name()
                        != entries@[e2].spec_name()) implies (find_in_children(
                self@[parent as int].children,
                entries@[e2].spec_name(),
            ) matches Some(c) && t0.len() <= c < self@.len() && self@[c].size == entries@[
                e2
            ].spec_node_size() && self@[c].children.len() == 0) by {
                let nm = entries@[e2].spec_name();
                assert(0 <= e2 < entries@.len() && (#[trigger] entries@[e2]).spec_name() == nm
                    && !(parent == 0 && in_ignore(ignore@, nm)));
                assert(find_in_children(self@[parent as int].children, nm) is Some);
                let c = find_in_children(self@[parent as int].children, nm)->Some_0;
                let ee = choose|ee: int|
                    0 <= ee < n && (#[trigger] entries@[ee]).spec_name() == nm && self@[c].size
                        == entries@[ee].spec_node_size();
                assert(ee == e2);
            }
        }
        dirs
    }
}

/// One step of folding a listing: the tree went from `tpre` to `tcur` by
/// appending a child named `nm` under `parent`; the canonical presence
/// predicate advances from entry `e` to `e + 1`.
proof fn lemma_apply_listing_step(
    t0: Seq<NodeV>,
    tpre: Seq<NodeV>,
    tcur: Seq<NodeV>,
    parent: int,
    added: Seq<char>,
    entries: Seq<DirEntry>,
    ignore: Seq<String>,
    e: int,
)
    requires
        0 <= parent < t0.len() <= tpre.len(),
        0 <= e < entries.len(),
        added == entries[e].spec_name(),
        !(parent == 0 && in_ignore(ignore, added)),
        tcur[parent].children == tpre[parent].children.push((added, tpre.len() as int)),
        forall|nm: Seq<char>|
            #[trigger] find_in_children(tpre[parent].children, nm) is Some <==> (find_in_children(
                t0[parent].children,
                nm,
            ) is Some || exists|ee: int|
                0 <= ee < e && (#[trigger] entries[ee]).spec_name() == nm && !(parent == 0
                    && in_ignore(ignore, nm))),
    ensures
        forall|nm: Seq<char>|
            #[trigger] find_in_children(tcur[parent].children, nm) is Some <==> (find_in_children(
                t0[parent].children,
                nm,
            ) is Some || exists|ee: int|
                0 <= ee < e + 1 && (#[trigger] entries[ee]).spec_name() == nm && !(parent == 0
                    && in_ignore(ignore, nm))),
{
    assert forall|nm: Seq<char>|
        #[trigger] find_in_children(tcur[parent].children, nm) is Some <==> (find_in_children(
            t0[parent].children,
            nm,
        ) is Some || exists|ee: int|
            0 <= ee < e + 1 && (#[trigger] entries[ee]).spec_name() == nm && !(parent == 0
                && in_ignore(ignore, nm))) by {
        lemma_find_push(tpre[parent].children, (added, tpre.len() as int), nm);
        if find_in_children(tcur[parent].children, nm) is Some {
            if !(find_in_children(tpre[parent].children, nm) is Some) {
                assert(nm == added);
                assert(0 <= e < e + 1 && entries[e].spec_name() == nm && !(parent == 0 && in_ignore(
                    ignore,
                    nm,
                )));
            }
        }
        if exists|ee: int|
            0 <= ee < e + 1 && (#[trigger] entries[ee]).spec_name() == nm && !(parent == 0
                && in_ignore(ignore, nm)) {
            let ee = choose|ee: int|
                0 <= ee < e + 1 && (#[trigger] entries[ee]).spec_name() == nm && !(parent == 0
                    && in_ignore(ignore, nm));
            if ee == e {
                assert(nm == added);
                assert(find_in_children(tcur[parent].children, nm) is Some);
            } else {
                assert(find_in_children(tpre[parent].children, nm) is Some);
            }
        }
    }
}

/// The first component by which a resolvable path extends a resolved base
/// is a child of the base's node.
pub proof fn lemma_resolve_first_component(t: Seq<NodeV>, base: PathV, q: PathV, i: int)
    requires
        resolve(t, 0, base) == Some(i),
        is_prefix_of(base, q),
        q.len() > base.len(),
        resolve(t, 0, q) is Some,
    ensures
        find_in_children(t[i].children, q[base.len() as int]) is Some,
{
    let rest = q.subrange(base.len() as int, q.len() as int);
    assert(q =~= base + rest);
    lemma_resolve_concat(t, 0, base, rest);
    assert(rest[0] == q[base.len() as int]);
    assert(resolve(t, i, rest) is Some);
}

/// A prefix extended by the next component of `q` is still a prefix.
pub proof fn lemma_prefix_extend(base: PathV, name: Seq<char>, q: PathV)
    requires
        is_prefix_of(base, q),
        q.len() > base.len(),
        q[base.len() as int] == name,
    ensures
        is_prefix_of(base.push(name), q),
{
    let ext = base.push(name);
    assert forall|i: int| 0 <= i < ext.len() implies q.subrange(0, ext.len() as int)[i]
        == ext[i] by {
        if i < base.len() {
            assert(q.subrange(0, base.len() as int)[i] == q[i]);
        }
    }
    assert(q.subrange(0, ext.len() as int) =~= ext);
}

/// With distinct names, looking up slot `k`'s name finds slot `k`'s index.
pub proof fn lemma_find_value(cs: Seq<(Seq<char>, int)>, k: int)
    requires
        forall|k1: int, k2: int|
            0 <= k1 < k2 < cs.len() ==> (#[trigger] cs[k1]).0 != (#[trigger] cs[k2]).0,
        0 <= k < cs.len(),
    ensures
        find_in_children(cs, cs[k].0) == Some(cs[k].1),
    decreases cs.len(),
{
    if k == 0 {
    } else {
        assert(cs[0].0 != cs[k].0);
        assert forall|k1: int, k2: int|
            0 <= k1 < k2 < cs.drop_first().len() implies (#[trigger] cs.drop_first()[k1]).0 != (
        #[trigger] cs.drop_first()[k2]).0 by {
            assert(cs.drop_first()[k1] == cs[k1 + 1]);
            assert(cs.drop_first()[k2] == cs[k2 + 1]);
        }
        assert(cs.drop_first()[k - 1] == cs[k]);
        lemma_find_value(cs.drop_first(), k - 1);
    }
}

/// A copy of `path` with `name` appended, as plain component vectors.
pub fn path_push(path: &Vec<String>, name: &String) -> (r: Vec<String>)
    ensures
        r.deep_view() == path.deep_view().push(name@),
{
    let mut r: Vec<String> = Vec::new();
    let n = path.len();
    let mut i: usize = 0;
    while i < n
        invariant
            n == path@.len(),
            i <= n,
            r@.len() == i,
            r.deep_view() == path.deep_view().subrange(0, i as int),
        decreases n - i,
    {
        r.push(path[i].clone());
        proof {
            let rv: Seq<Seq<char>> = r.deep_view();
            let pv: Seq<Seq<char>> = path.deep_view();
            assert(rv.len() == r@.len());
            assert(pv.len() == path@.len());
            assert forall|j: int| 0 <= j < rv.len() implies rv[j] == pv.subrange(0, i + 1)[j] by {
                assert(rv[j] == r@[j]@);
                assert(pv[j] == path@[j]@);
            }
            assert(rv =~= pv.subrange(0, i + 1));
        }
        i = i + 1;
    }
    r.push(name.clone());
    proof {
        let rv: Seq<Seq<char>> = r.deep_view();
        let pv: Seq<Seq<char>> = path.deep_view();
        assert(pv.subrange(0, n as int) =~= pv);
        assert forall|j: int| 0 <= j < rv.len() implies rv[j] == pv.push(name@)[j] by {
            assert(rv[j] == r@[j]@);
            if j < n {
                assert(pv[j] == path@[j]@);
            }
        }
        assert(rv =~= pv.push(name@));
    }
    r
}

/// A plain copy of a component vector.
pub fn path_dup(path: &Vec<String>) -> (r: Vec<String>)
    ensures
        r.deep_view() == path.deep_view(),
{
    let mut r: Vec<String> = Vec::new();
    let n = path.len();
    let mut i: usize = 0;
    while i < n
        invariant
            n == path@.len(),
            i <= n,
            r@.len() == i,
            r.deep_view() == path.deep_view().subrange(0, i as int),
        decreases n - i,
    {
        r.push(path[i].clone());
        proof {
            let rv: Seq<Seq<char>> = r.deep_view();
            let pv: Seq<Seq<char>> = path.deep_view();
            assert(rv.len() == r@.len());
            assert(pv.len() == path@.len());
            assert forall|j: int| 0 <= j < rv.len() implies rv[j] == pv.subrange(0, i + 1)[j] by {
                assert(rv[j] == r@[j]@);
                assert(pv[j] == path@[j]@);
            }
            assert(rv =~= pv.subrange(0, i + 1));
        }
        i = i + 1;
    }
    proof {
        assert(path.deep_view().subrange(0, n as int) =~= path.deep_view());
    }
    r
}

/// Whether `name` occurs in `list`.
pub fn contains_string(list: &Vec<String>, name: &String) -> (r: bool)
    ensures
        r <==> in_ignore(list@, name@),
{
    let n = list.len();
    let mut k: usize = 0;
    while k < n
        invariant
            n == list@.len(),
            k <= n,
            forall|j: int| 0 <= j < k ==> list@[j]@ != name@,
        decreases n - k,
    {
        if list[k].eq(name) {
            return true;
        }
        k = k + 1;
    }
    false
}

} // verus!
