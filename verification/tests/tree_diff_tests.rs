use flippy::diff::{diff, matched_file_candidates, structural_ops, update_ops_from_verdicts,
    Op, TableOracle};
use flippy::tree::{DirEntry, RemoteTree, Tree};

fn comps(parts: &[&str]) -> Vec<String> {
    parts.iter().map(|s| s.to_string()).collect()
}

fn local_from(paths: &[(&[&str], u32)]) -> Tree {
    let pairs: Vec<(Vec<String>, u32)> = paths.iter().map(|(p, s)| (comps(p), *s)).collect();
    Tree::from_path_and_sizes(&pairs)
}

fn remote_add_file(t: &mut RemoteTree, parent: usize, name: &str, size: u32) -> usize {
    let entries = vec![DirEntry::File(name.to_string(), size)];
    t.apply_listing(parent, &entries, &Vec::new());
    t.find_child_by_name(parent, &name.to_string()).unwrap()
}

fn remote_add_dir(t: &mut RemoteTree, parent: usize, name: &str) -> usize {
    let entries = vec![DirEntry::Dir(name.to_string())];
    let dirs = t.apply_listing(parent, &entries, &Vec::new());
    assert_eq!(dirs.len(), 1);
    dirs[0]
}

#[test]
fn first_run_single_file_emits_one_copy() {
    let local = local_from(&[(&["1.sub"], 17)]);
    let remote = RemoteTree::new();
    let mut ops: Vec<Op> = Vec::new();
    let mut oracle = TableOracle { verdicts: Vec::new() };
    diff(&local, &remote, &mut ops, &mut oracle).unwrap();
    assert_eq!(ops, vec![Op::Copy(comps(&["1.sub"]))]);
}

#[test]
fn identical_trees_emit_nothing() {
    let local = local_from(&[(&["a", "x.nfc"], 10), (&["b.ir"], 3)]);
    let mut remote = RemoteTree::new();
    let a = remote_add_dir(&mut remote, 0, "a");
    remote_add_file(&mut remote, a, "x.nfc", 10);
    remote_add_file(&mut remote, 0, "b.ir", 3);
    let mut ops: Vec<Op> = Vec::new();
    // every verdict false: contents match
    let mut oracle = TableOracle { verdicts: vec![false; remote.nodes.len()] };
    diff(&local, &remote, &mut ops, &mut oracle).unwrap();
    assert_eq!(ops, Vec::<Op>::new());
}

#[test]
fn size_equal_content_different_emits_copy() {
    let local = local_from(&[(&["f.bin"], 128)]);
    let mut remote = RemoteTree::new();
    let f = remote_add_file(&mut remote, 0, "f.bin", 128);
    let mut verdicts = vec![false; remote.nodes.len()];
    verdicts[f] = true;
    let mut ops: Vec<Op> = Vec::new();
    let mut oracle = TableOracle { verdicts };
    diff(&local, &remote, &mut ops, &mut oracle).unwrap();
    assert_eq!(ops, vec![Op::Copy(comps(&["f.bin"]))]);
}

#[test]
fn remote_only_subtree_is_removed_once() {
    let local = local_from(&[(&["keep.sub"], 1)]);
    let mut remote = RemoteTree::new();
    remote_add_file(&mut remote, 0, "keep.sub", 1);
    let junk = remote_add_dir(&mut remote, 0, "junk");
    remote_add_file(&mut remote, junk, "inner.txt", 9);
    let mut ops: Vec<Op> = Vec::new();
    let mut oracle = TableOracle { verdicts: vec![false; remote.nodes.len()] };
    diff(&local, &remote, &mut ops, &mut oracle).unwrap();
    assert_eq!(ops, vec![Op::Remove(comps(&["junk"]))]);
}

#[test]
fn creation_emits_parent_dirs_before_children() {
    let local = local_from(&[(&["d", "e", "deep.sub"], 5)]);
    let remote = RemoteTree::new();
    let mut ops: Vec<Op> = Vec::new();
    let mut oracle = TableOracle { verdicts: Vec::new() };
    diff(&local, &remote, &mut ops, &mut oracle).unwrap();
    assert_eq!(
        ops,
        vec![
            Op::CreateDir(comps(&["d"])),
            Op::CreateDir(comps(&["d", "e"])),
            Op::Copy(comps(&["d", "e", "deep.sub"])),
        ]
    );
}

#[test]
fn removes_precede_creations() {
    let local = local_from(&[(&["new.sub"], 2)]);
    let mut remote = RemoteTree::new();
    remote_add_file(&mut remote, 0, "old.sub", 2);
    let mut ops: Vec<Op> = Vec::new();
    let mut oracle = TableOracle { verdicts: vec![false; remote.nodes.len()] };
    diff(&local, &remote, &mut ops, &mut oracle).unwrap();
    assert_eq!(
        ops,
        vec![Op::Remove(comps(&["old.sub"])), Op::Copy(comps(&["new.sub"]))]
    );
}

#[test]
fn split_phase_matches_oracle_phase() {
    let local = local_from(&[(&["a", "x"], 4), (&["b"], 7)]);
    let mut remote = RemoteTree::new();
    let a = remote_add_dir(&mut remote, 0, "a");
    remote_add_file(&mut remote, a, "x", 4);
    remote_add_file(&mut remote, 0, "b", 9);
    let mut ops: Vec<Op> = Vec::new();
    let matched = structural_ops(&local, &remote, &mut ops);
    assert_eq!(ops, Vec::<Op>::new());
    let candidates = matched_file_candidates(&local, &matched);
    assert_eq!(candidates.len(), 2);
    // declare only "b" different
    let verdicts: Vec<bool> = candidates
        .iter()
        .map(|&c| matched[c].path == comps(&["b"]))
        .collect();
    update_ops_from_verdicts(&matched, &candidates, &verdicts, &mut ops);
    assert_eq!(ops, vec![Op::Copy(comps(&["b"]))]);
}

#[test]
fn ignore_applies_only_at_traversal_root() {
    let mut remote = RemoteTree::new();
    let ignore = vec!["assets".to_string()];
    let entries = vec![
        DirEntry::Dir("assets".to_string()),
        DirEntry::Dir("sub".to_string()),
    ];
    let dirs = remote.apply_listing(0, &entries, &ignore);
    assert_eq!(dirs.len(), 1, "assets is skipped at the root");
    let sub = dirs[0];
    let nested = vec![DirEntry::Dir("assets".to_string())];
    let nested_dirs = remote.apply_listing(sub, &nested, &ignore);
    assert_eq!(nested_dirs.len(), 1, "assets is kept below the root");
}

#[test]
fn builder_dedups_shared_prefixes() {
    let local = local_from(&[(&["a", "x"], 1), (&["a", "y"], 2)]);
    // root + a + x + y
    assert_eq!(local.nodes.len(), 4);
    let a = local.find_child_by_name(0, &"a".to_string()).unwrap();
    assert!(local.find_child_by_name(a, &"x".to_string()).is_some());
    assert!(local.find_child_by_name(a, &"y".to_string()).is_some());
}

#[test]
fn mixed_run_orders_remove_create_update() {
    let local = local_from(&[(&["d", "f1"], 1), (&["same"], 5)]);
    let mut remote = RemoteTree::new();
    remote_add_file(&mut remote, 0, "gone", 3);
    let same = remote_add_file(&mut remote, 0, "same", 5);
    let mut verdicts = vec![false; remote.nodes.len()];
    verdicts[same] = true;
    let mut ops: Vec<Op> = Vec::new();
    let mut oracle = TableOracle { verdicts };
    diff(&local, &remote, &mut ops, &mut oracle).unwrap();
    assert_eq!(
        ops,
        vec![
            Op::Remove(comps(&["gone"])),
            Op::CreateDir(comps(&["d"])),
            Op::Copy(comps(&["d", "f1"])),
            Op::Copy(comps(&["same"])),
        ]
    );
}
