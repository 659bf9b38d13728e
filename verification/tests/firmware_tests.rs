use flippy::directory::{Channel, Directory, File, Id, NoUpdateTgz, Target, Version,
    MOMENTUM_DIRECTORY, OFFICIAL_DIRECTORY, UNLEASHED_DIRECTORY};
use flippy::firmware::Firmware;

#[test]
fn parses_every_published_pair() {
    let cases = [
        ("official@release", Firmware::Official(Id::Release)),
        ("official@release-candidate", Firmware::Official(Id::ReleaseCanidate)),
        ("official@development", Firmware::Official(Id::Development)),
        ("momentum@release", Firmware::Momentum(Id::Release)),
        ("momentum@development", Firmware::Momentum(Id::Development)),
        ("unleashed@release", Firmware::Unleashed(Id::Release)),
        ("unleashed@release-candidate", Firmware::Unleashed(Id::ReleaseCanidate)),
    ];
    for (text, want) in cases {
        assert_eq!(Firmware::parse(&text.to_string()).unwrap(), want, "{}", text);
    }
}

#[test]
fn parses_urls_as_custom() {
    let f = Firmware::parse(&"https://example.com/fw.tgz".to_string()).unwrap();
    assert_eq!(f, Firmware::Custom("https://example.com/fw.tgz".to_string()));
}

#[test]
fn rejects_unknown_text() {
    assert!(Firmware::parse(&"not at all a url".to_string()).is_err());
    assert!(Firmware::parse(&"rougemaster@release".to_string()).is_err());
}

#[test]
fn config_string_round_trips() {
    for f in [
        Firmware::Official(Id::Release),
        Firmware::Official(Id::Development),
        Firmware::Momentum(Id::ReleaseCanidate),
        Firmware::Unleashed(Id::Release),
    ] {
        let text = f.to_config_string();
        assert_eq!(Firmware::parse(&text).unwrap(), f, "{}", text);
    }
}

#[test]
fn default_is_official_release() {
    assert_eq!(Firmware::default(), Firmware::Official(Id::Release));
}

#[test]
fn directory_urls_are_fixed() {
    assert_eq!(Firmware::Official(Id::Release).get_directory(), OFFICIAL_DIRECTORY);
    assert_eq!(Firmware::Unleashed(Id::Release).get_directory(), UNLEASHED_DIRECTORY);
    assert_eq!(Firmware::Momentum(Id::Release).get_directory(), MOMENTUM_DIRECTORY);
    assert_eq!(
        OFFICIAL_DIRECTORY,
        "https://update.flipperzero.one/firmware/directory.json"
    );
    assert_eq!(UNLEASHED_DIRECTORY, "https://up.unleashedflip.com/directory.json");
    assert_eq!(
        MOMENTUM_DIRECTORY,
        "https://up.momentum-fw.dev/firmware/directory.json"
    );
}

fn file(kind: &str, url: &str) -> File {
    File {
        url: url.to_string(),
        target: Target::F7,
        file_type: kind.to_string(),
        sha256: "00".repeat(32),
    }
}

fn version(files: Vec<File>) -> Version {
    Version {
        version: "1.2.3".to_string(),
        changelog: "notes".to_string(),
        timestamp: 1_700_000_000,
        files,
    }
}

#[test]
fn latest_tgz_takes_first_matching_file() {
    let v = version(vec![
        file("full_dfu", "https://x/1"),
        file("update_tgz", "https://x/2"),
        file("update_tgz", "https://x/3"),
    ]);
    assert_eq!(v.latest_tgz().unwrap().url, "https://x/2");
    let none = version(vec![file("full_dfu", "https://x/1")]);
    assert_eq!(none.latest_tgz().unwrap_err(), NoUpdateTgz);
}

#[test]
fn channel_latest_version_picks_first_listed() {
    let dir = Directory {
        channels: vec![
            Channel {
                id: Id::Development,
                title: "dev".to_string(),
                description: String::new(),
                versions: Some(vec![version(vec![])]),
            },
            Channel {
                id: Id::Release,
                title: "rel".to_string(),
                description: String::new(),
                versions: Some(vec![version(vec![file("update_tgz", "https://x/r")])]),
            },
        ],
    };
    let v = dir.channel_latest_version(&Id::Release).unwrap();
    assert_eq!(v.files[0].url, "https://x/r");
    assert!(dir.channel_latest_version(&Id::ReleaseCanidate).is_none());
}

#[test]
fn channel_and_target_names() {
    assert_eq!(Id::Release.as_str(), "release");
    assert_eq!(Id::ReleaseCanidate.as_str(), "release-candidate");
    assert_eq!(Id::Development.as_str(), "development");
    assert_eq!(Target::F7.as_str(), "f7");
    assert_eq!(Target::F18.as_str(), "f18");
    assert_eq!(Target::Any.as_str(), "any");
}
