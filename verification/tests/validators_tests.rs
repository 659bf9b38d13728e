use flippy::validators::{normalize_url, validate_project_name, NameError, ProjectNameValidator,
    URLValidator};

#[test]
fn accepts_ordinary_names() {
    assert!(validate_project_name("flipper").is_ok());
    assert!(validate_project_name("My-Device_2").is_ok());
    assert!(validate_project_name("a").is_ok());
    let max: String = std::iter::repeat('x').take(64).collect();
    assert!(validate_project_name(&max).is_ok());
}

#[test]
fn rejects_empty_name() {
    assert_eq!(validate_project_name(""), Err(NameError::Empty));
}

#[test]
fn rejects_long_name() {
    let long: String = std::iter::repeat('x').take(65).collect();
    assert_eq!(validate_project_name(&long), Err(NameError::TooLong));
}

#[test]
fn rejects_bad_first_character() {
    assert_eq!(validate_project_name("1abc"), Err(NameError::BadStart));
    assert_eq!(validate_project_name("-abc"), Err(NameError::BadStart));
    assert_eq!(validate_project_name("_abc"), Err(NameError::BadStart));
}

#[test]
fn rejects_bad_characters() {
    assert_eq!(validate_project_name("ab cd"), Err(NameError::BadChar));
    assert_eq!(validate_project_name("ab.cd"), Err(NameError::BadChar));
    assert_eq!(validate_project_name("abcé"), Err(NameError::BadChar));
}

#[test]
fn url_validator_accepts_and_rejects() {
    let v = URLValidator;
    assert!(v.validate(&"https://example.com/repo.git".to_string()).is_ok());
    assert!(v.validate(&"not a url".to_string()).is_err());
}

#[test]
fn name_validator_mirrors_function() {
    let v = ProjectNameValidator;
    assert!(v.validate(&"good-name".to_string()).is_ok());
    assert!(v.validate(&"".to_string()).is_err());
}

#[test]
fn normalize_url_yields_parser_normal_form() {
    let u = normalize_url(&"https://Example.COM/path".to_string()).unwrap();
    let direct = url::Url::parse("https://Example.COM/path").unwrap().to_string();
    assert_eq!(u, direct);
    assert!(normalize_url(&"::not-a-url::".to_string()).is_none());
}
