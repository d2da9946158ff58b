use rfsd::error::MetadataError;
use rfsd::path_utils::{
    check_component, cid_from_draws, generate_cid, validate_and_split_path, validate_component,
};

fn invalid(name: &str) -> bool {
    matches!(validate_component(name), Err(MetadataError::InvalidPathComponent(n)) if n == name)
}

#[test]
fn dotted_names_are_accepted() {
    assert!(validate_component("a.b.c").is_ok());
    assert!(validate_component(".hidden").is_ok());
    assert!(validate_component("report-2024_v1.txt").is_ok());
    assert!(validate_component("x@y~(1)[2]").is_ok());
}

#[test]
fn trailing_and_double_dots_are_rejected() {
    assert!(invalid("a."));
    assert!(invalid("a.."));
    assert!(invalid(".."));
    assert!(invalid("."));
    assert!(invalid("a..b"));
}

#[test]
fn empty_name_is_its_own_error() {
    assert!(matches!(validate_component(""), Err(MetadataError::EmptyPathComponent)));
}

#[test]
fn separators_controls_and_spaces_are_rejected() {
    assert!(invalid("a/b"));
    assert!(invalid("a\0b"));
    assert!(invalid("a b"));
    assert!(invalid("a\\b"));
    assert!(invalid("semi;colon"));
}

#[test]
fn unicode_letters_and_numbers_are_accepted() {
    assert!(validate_component("ünïcödé").is_ok());
    assert!(validate_component("名前").is_ok());
    assert!(validate_component("٣٤").is_ok());
}

#[test]
fn paths_split_into_non_empty_components() {
    assert_eq!(validate_and_split_path("/d1/d2").unwrap(), vec!["d1", "d2"]);
    assert_eq!(validate_and_split_path("d1/d2/").unwrap(), vec!["d1", "d2"]);
    assert_eq!(validate_and_split_path("//a///b//").unwrap(), vec!["a", "b"]);
    assert_eq!(validate_and_split_path("x").unwrap(), vec!["x"]);
}

#[test]
fn empty_path_is_the_root() {
    assert!(validate_and_split_path("").unwrap().is_empty());
    assert!(validate_and_split_path("/").unwrap().is_empty());
    assert!(validate_and_split_path("///").unwrap().is_empty());
}

#[test]
fn path_reports_first_bad_component() {
    match validate_and_split_path("/ok/../b./c") {
        Err(MetadataError::InvalidPathComponent(n)) => assert_eq!(n, ".."),
        other => panic!("unexpected {:?}", other),
    }
    match validate_and_split_path("a/b c") {
        Err(MetadataError::InvalidPathComponent(n)) => assert_eq!(n, "b c"),
        other => panic!("unexpected {:?}", other),
    }
}

#[test]
fn cids_are_five_alphanumerics() {
    for _ in 0..200 {
        let c = generate_cid();
        assert_eq!(c.chars().count(), 5);
        assert!(c.chars().all(|ch| ch.is_ascii_alphanumeric()));
    }
}

#[test]
fn cid_draws_pick_alphabet_symbols() {
    assert_eq!(cid_from_draws(&vec![0, 25, 26, 51, 52]), "AZaz0");
    assert_eq!(cid_from_draws(&vec![61, 61, 1, 27, 53]), "99Bb1");
}

#[test]
fn dot_rules_apply_after_the_character_check() {
    assert!(check_component("a.b.c", true).is_ok());
    assert!(check_component(".hidden", true).is_ok());
    assert!(matches!(check_component("a.b.c", false), Err(MetadataError::InvalidPathComponent(n)) if n == "a.b.c"));
    assert!(matches!(check_component("a.", true), Err(MetadataError::InvalidPathComponent(n)) if n == "a."));
    assert!(matches!(check_component("a..b", true), Err(MetadataError::InvalidPathComponent(_))));
    assert!(matches!(check_component("..", true), Err(MetadataError::InvalidPathComponent(_))));
    assert!(matches!(check_component("", true), Err(MetadataError::EmptyPathComponent)));
}
