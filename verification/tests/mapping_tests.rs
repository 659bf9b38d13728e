use flippy::mapping::{add_exclude, add_include, Mapping, MappingEntry, Mappings};

fn entry(inc: &[&str], exc: &[&str]) -> MappingEntry {
    MappingEntry {
        includes: inc.iter().map(|s| s.to_string()).collect(),
        exclude: exc.iter().map(|s| s.to_string()).collect(),
    }
}

#[test]
fn patterns_prefix_excludes_with_the_marker() {
    let e = entry(&["subghz/**", "assets"], &["assets/secret"]);
    let pats = e.patterns();
    assert_eq!(
        pats,
        vec![
            "subghz/**".to_string(),
            "assets".to_string(),
            ":(exclude)assets/secret".to_string(),
        ]
    );
}

#[test]
fn info_fixed_destinations_and_ignores() {
    let e = entry(&["x"], &[]);
    let m = Mapping::SubGHz(&e);
    let info = m.info();
    assert_eq!(info.destination, "/ext/subghz");
    assert_eq!(info.ignore, vec!["assets".to_string()]);

    let m = Mapping::Nfc(&e);
    let info = m.info();
    assert_eq!(info.destination, "/ext/nfc");
    assert_eq!(info.ignore, vec!["assets".to_string(), ".cache".to_string()]);

    let m = Mapping::BadUSB(&e);
    let info = m.info();
    assert_eq!(info.destination, "/ext/badusb");
    assert_eq!(
        info.ignore,
        vec!["assets".to_string(), ".badusb.settings".to_string()]
    );

    let m = Mapping::Rfid(&e);
    let info = m.info();
    assert_eq!(info.destination, "/ext/lfrfid");
    assert!(info.ignore.is_empty());

    let m = Mapping::IButton(&e);
    let info = m.info();
    assert_eq!(info.destination, "/ext/ibutton");
    assert!(info.ignore.is_empty());

    let m = Mapping::IR(&e);
    let info = m.info();
    assert_eq!(info.destination, "/ext/infared");
    assert_eq!(info.ignore, vec!["assets".to_string()]);
}

#[test]
fn iter_yields_present_slots_in_fixed_order() {
    let mut m = Mappings::new();
    assert_eq!(m.iter().len(), 0);
    m.subghz = Some(entry(&["a"], &[]));
    m.ir = Some(entry(&["b"], &[]));
    let listed = m.iter();
    assert_eq!(listed.len(), 2);
    assert!(matches!(listed[0], Mapping::SubGHz(_)));
    assert!(matches!(listed[1], Mapping::IR(_)));
}

#[test]
fn add_include_creates_or_extends_slot() {
    let mut slot: Option<MappingEntry> = None;
    add_include(&mut slot, "subghz/**".to_string());
    let e = slot.as_ref().unwrap();
    assert_eq!(e.includes, vec!["subghz/**".to_string()]);
    assert!(e.exclude.is_empty());

    add_include(&mut slot, "more/*".to_string());
    let e = slot.as_ref().unwrap();
    assert_eq!(e.includes, vec!["subghz/**".to_string(), "more/*".to_string()]);
}

#[test]
fn add_exclude_creates_or_extends_slot() {
    let mut slot: Option<MappingEntry> = None;
    add_exclude(&mut slot, "assets/private".to_string());
    let e = slot.as_ref().unwrap();
    assert!(e.includes.is_empty());
    assert_eq!(e.exclude, vec!["assets/private".to_string()]);
}
