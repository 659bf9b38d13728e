use flippy::paths::{join_components, split_path, str_eq, strip_prefix_components};

fn comps(parts: &[&str]) -> Vec<String> {
    parts.iter().map(|s| s.to_string()).collect()
}

#[test]
fn split_drops_empty_components() {
    assert_eq!(split_path("a/b/c"), comps(&["a", "b", "c"]));
    assert_eq!(split_path("/a/b/"), comps(&["a", "b"]));
    assert_eq!(split_path("a//b"), comps(&["a", "b"]));
    assert_eq!(split_path(""), comps(&[]));
    assert_eq!(split_path("/"), comps(&[]));
    assert_eq!(split_path("single"), comps(&["single"]));
}

#[test]
fn join_inverts_split_on_clean_paths() {
    for p in ["a/b/c", "x", "nfc/mine/card.nfc"] {
        assert_eq!(join_components(&split_path(p)), p);
    }
    assert_eq!(join_components(&comps(&[])), "");
}

#[test]
fn strip_prefix_reconstructs() {
    let lcd = comps(&["assets", "subghz"]);
    let matched = comps(&["assets", "subghz", "garage", "door.sub"]);
    let rel = strip_prefix_components(&lcd, &matched).expect("lcd must be a prefix");
    assert_eq!(rel, comps(&["garage", "door.sub"]));
    // re-prefixing the LCD reconstructs the matched path
    let mut back = lcd.clone();
    back.extend(rel);
    assert_eq!(back, matched);
}

#[test]
fn strip_prefix_rejects_non_prefixes() {
    assert!(strip_prefix_components(&comps(&["a"]), &comps(&["b", "c"])).is_none());
    assert!(strip_prefix_components(&comps(&["a", "b", "c"]), &comps(&["a", "b"])).is_none());
    assert_eq!(
        strip_prefix_components(&comps(&[]), &comps(&["x"])).unwrap(),
        comps(&["x"])
    );
}

#[test]
fn str_eq_is_exact() {
    assert!(str_eq("", ""));
    assert!(str_eq("abc", "abc"));
    assert!(!str_eq("abc", "abd"));
    assert!(!str_eq("abc", "abcd"));
}
