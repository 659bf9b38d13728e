use flippy::install::{manifest_path, stage_plan, update_base, StageStep, TgzEntry};

fn comps(parts: &[&str]) -> Vec<String> {
    parts.iter().map(|s| s.to_string()).collect()
}

fn dir(parts: &[&str]) -> TgzEntry {
    TgzEntry { path: comps(parts), is_dir: true, size: 0 }
}

fn file(parts: &[&str], size: u64) -> TgzEntry {
    TgzEntry { path: comps(parts), is_dir: false, size }
}

#[test]
fn staging_follows_archive_order() {
    let entries = vec![
        dir(&["update_1.2.3"]),
        file(&["update_1.2.3", "firmware.bin"], 1024),
        file(&["update_1.2.3", "update.fuf"], 64),
        file(&["update_1.2.3", "resources.tar"], 2048),
    ];
    let plan = stage_plan(&entries);
    assert_eq!(
        plan,
        vec![
            StageStep::MakeDir("/ext/update".to_string()),
            StageStep::MakeDirClean("/ext/update/update_1.2.3".to_string()),
            StageStep::WriteFile("/ext/update/update_1.2.3/firmware.bin".to_string(), 1024),
            StageStep::WriteFile("/ext/update/update_1.2.3/update.fuf".to_string(), 64),
            StageStep::WriteFile("/ext/update/update_1.2.3/resources.tar".to_string(), 2048),
        ]
    );
}

#[test]
fn base_is_the_first_directory() {
    let entries = vec![
        file(&["stray"], 1),
        dir(&["update_1.2.3"]),
        dir(&["update_1.2.3", "sub"]),
    ];
    let base = update_base(&entries).unwrap();
    assert_eq!(base, "/ext/update/update_1.2.3");
    assert!(update_base(&vec![file(&["only.bin"], 2)]).is_none());
}

#[test]
fn manifest_lives_inside_the_base() {
    let base = "/ext/update/update_1.2.3".to_string();
    assert_eq!(manifest_path(&base), "/ext/update/update_1.2.3/update.fuf");
}
