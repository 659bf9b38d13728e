use flippy::diff::Op;
use flippy::sync_file::SyncFile;
use flippy::upload::{count_ops, exec_step, record_sync_entry, translate_changes, Action, Change,
    ChangeKind, ExecState};

fn comps(parts: &[&str]) -> Vec<String> {
    parts.iter().map(|s| s.to_string()).collect()
}

#[test]
fn counts_mutations_only() {
    let ops = vec![
        Op::Repo("store/x".to_string()),
        Op::Mapping("assets".to_string(), "/ext/subghz".to_string()),
        Op::Copy(comps(&["a"])),
        Op::Copy(comps(&["b"])),
        Op::CreateDir(comps(&["d"])),
        Op::Remove(comps(&["r"])),
    ];
    assert_eq!(count_ops(&ops), (2, 1, 1));
    assert_eq!(count_ops(&Vec::new()), (0, 0, 0));
}

#[test]
fn addition_under_lcd_becomes_copy() {
    // the fast path: one added file under the mapping's common directory
    let changes = vec![Change {
        kind: ChangeKind::Addition,
        location: comps(&["foo", "bar.nfc"]),
        included: true,
    }];
    let mut ops = Vec::new();
    translate_changes(&changes, &comps(&["foo"]), &mut ops);
    assert_eq!(ops, vec![Op::Copy(comps(&["bar.nfc"]))]);
}

#[test]
fn deletion_under_lcd_becomes_remove() {
    let changes = vec![Change {
        kind: ChangeKind::Deletion,
        location: comps(&["x", "y.ir"]),
        included: true,
    }];
    let mut ops = Vec::new();
    translate_changes(&changes, &comps(&["x"]), &mut ops);
    assert_eq!(ops, vec![Op::Remove(comps(&["y.ir"]))]);
}

#[test]
fn excluded_or_out_of_scope_changes_contribute_nothing() {
    let changes = vec![
        Change {
            kind: ChangeKind::Modification,
            location: comps(&["foo", "kept.sub"]),
            included: false,
        },
        Change {
            kind: ChangeKind::Addition,
            location: comps(&["elsewhere", "a.sub"]),
            included: true,
        },
    ];
    let mut ops = Vec::new();
    translate_changes(&changes, &comps(&["foo"]), &mut ops);
    assert_eq!(ops, Vec::<Op>::new());
}

#[test]
fn modification_becomes_copy() {
    let changes = vec![Change {
        kind: ChangeKind::Modification,
        location: comps(&["m.sub"]),
        included: true,
    }];
    let mut ops = Vec::new();
    translate_changes(&changes, &comps(&[]), &mut ops);
    assert_eq!(ops, vec![Op::Copy(comps(&["m.sub"]))]);
}

#[test]
fn exec_steps_resolve_against_the_stream_context() {
    let mut state = ExecState::new();
    assert_eq!(exec_step(&mut state, &Op::Repo("store/u-1".to_string())), None);
    assert_eq!(
        exec_step(
            &mut state,
            &Op::Mapping("assets".to_string(), "/ext/subghz".to_string())
        ),
        None
    );
    assert_eq!(
        exec_step(&mut state, &Op::Copy(comps(&["garage", "door.sub"]))),
        Some(Action::CopyFile {
            from: "store/u-1/assets/garage/door.sub".to_string(),
            to: "/ext/subghz/garage/door.sub".to_string(),
        })
    );
    assert_eq!(
        exec_step(&mut state, &Op::CreateDir(comps(&["garage"]))),
        Some(Action::MakeDir { to: "/ext/subghz/garage".to_string() })
    );
    assert_eq!(
        exec_step(&mut state, &Op::Remove(comps(&["old"]))),
        Some(Action::RemoveDir { to: "/ext/subghz/old".to_string() })
    );
}

#[test]
fn empty_mapping_subpath_reads_from_the_clone_root() {
    let mut state = ExecState::new();
    exec_step(&mut state, &Op::Repo("store/u".to_string()));
    exec_step(&mut state, &Op::Mapping(String::new(), "/ext/nfc".to_string()));
    assert_eq!(
        exec_step(&mut state, &Op::Copy(comps(&["c.nfc"]))),
        Some(Action::CopyFile {
            from: "store/u/c.nfc".to_string(),
            to: "/ext/nfc/c.nfc".to_string(),
        })
    );
}

#[test]
fn sync_entries_accumulate_in_order() {
    let mut sync = SyncFile { repositories: Vec::new() };
    let uuid: Vec<u8> = vec![7; 16];
    let head: Vec<u8> = vec![9; 20];
    record_sync_entry(&mut sync, &uuid, &head);
    assert_eq!(sync.repositories.len(), 1);
    assert_eq!(sync.repositories[0].uuid, uuid);
    assert_eq!(sync.repositories[0].hash, head);
}
