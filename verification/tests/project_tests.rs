use flippy::firmware::Firmware;
use flippy::mapping::Mappings;
use flippy::project::{slot_mut, Domain, Flip, RepoError};
use flippy::mapping::add_include;

fn empty_flip() -> Flip {
    Flip {
        source_path: "/tmp/proj".to_string(),
        name: "proj".to_string(),
        firmware: Firmware::default(),
        repositories: Vec::new(),
    }
}

#[test]
fn add_repository_derives_identity_from_the_url() {
    let mut flip = empty_flip();
    flip.add_repository("flipper".to_string(), "https://example.com/repo.git".to_string())
        .unwrap();
    assert_eq!(flip.repositories.len(), 1);
    let (name, repo) = &flip.repositories[0];
    assert_eq!(name, "flipper");
    let normal = url::Url::parse("https://example.com/repo.git").unwrap().to_string();
    assert_eq!(repo.url, normal);
    let expected = uuid::Uuid::new_v5(&uuid::Uuid::NAMESPACE_URL, normal.as_bytes());
    assert_eq!(repo.uuid.as_slice(), expected.as_bytes());
}

#[test]
fn duplicate_name_or_url_is_rejected() {
    let mut flip = empty_flip();
    flip.add_repository("one".to_string(), "https://example.com/a".to_string()).unwrap();
    assert_eq!(
        flip.add_repository("one".to_string(), "https://example.com/b".to_string()),
        Err(RepoError::AlreadyExists)
    );
    assert_eq!(
        flip.add_repository("two".to_string(), "https://example.com/a".to_string()),
        Err(RepoError::AlreadyExists)
    );
    assert_eq!(flip.repositories.len(), 1);
}

#[test]
fn invalid_inputs_are_rejected() {
    let mut flip = empty_flip();
    assert_eq!(
        flip.add_repository("9bad".to_string(), "https://example.com/a".to_string()),
        Err(RepoError::InvalidName)
    );
    assert_eq!(
        flip.add_repository("fine".to_string(), "no scheme at all".to_string()),
        Err(RepoError::BadUrl)
    );
}

#[test]
fn remove_repository_by_name() {
    let mut flip = empty_flip();
    flip.add_repository("one".to_string(), "https://example.com/a".to_string()).unwrap();
    assert_eq!(flip.remove_repository(&"missing".to_string()), Err(RepoError::NotFound));
    assert!(flip.remove_repository(&"one".to_string()).is_ok());
    assert!(flip.repositories.is_empty());
}

#[test]
fn repo_index_finds_by_name() {
    let mut flip = empty_flip();
    flip.add_repository("one".to_string(), "https://example.com/a".to_string()).unwrap();
    flip.add_repository("two".to_string(), "https://example.com/b".to_string()).unwrap();
    assert_eq!(flip.repo_index(&"two".to_string()), Some(1));
    assert_eq!(flip.repo_index(&"zzz".to_string()), None);
}

#[test]
fn domain_parse_matches_command_names() {
    assert_eq!(Domain::parse("subghz"), Some(Domain::Subghz));
    assert_eq!(Domain::parse("rfid"), Some(Domain::Rfid));
    assert_eq!(Domain::parse("nfc"), Some(Domain::Nfc));
    assert_eq!(Domain::parse("ir"), Some(Domain::Ir));
    assert_eq!(Domain::parse("ibutton"), Some(Domain::Ibutton));
    assert_eq!(Domain::parse("badusb"), Some(Domain::Badusb));
    assert_eq!(Domain::parse("floppy"), None);
}

#[test]
fn slot_mut_routes_to_the_right_domain() {
    let mut m = Mappings::new();
    add_include(slot_mut(&mut m, Domain::Nfc), "cards/**".to_string());
    assert!(m.nfc.is_some());
    assert!(m.subghz.is_none());
    assert_eq!(m.nfc.as_ref().unwrap().includes, vec!["cards/**".to_string()]);
}
