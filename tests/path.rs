use tinyhttp::{Path, PathError};

#[test]
fn test_equal_simple_paths() {
    let base = "/users";
    let p1 = Path::try_from(base).unwrap();
    let p2 = Path::try_from(base).unwrap();
    assert_eq!(p1, p2)
}

#[test]
fn create_path_with_one_label() {
    let base = "/users/{id}";
    let p1 = Path::try_from(base).unwrap();
    assert_eq!(p1.raw_value(), &base.to_string());
    assert!(p1.has_wild_card());
    assert!(p1.segments().is_some());
    assert!(p1.labels().is_some());

    let segments = p1.segments().unwrap();
    let labels = p1.labels().unwrap();

    assert_eq!(segments.len(), 1);
    assert_eq!(labels.len(), 1);
    assert_eq!(segments[0], "/users/");
    assert_eq!(p1.label_index("id").unwrap(), 0);
}

#[test]
fn create_path_with_one_label_and_trailing_segment() {
    let base = "/users/{id}/some";
    let p1 = Path::try_from(base).unwrap();
    assert_eq!(p1.raw_value(), &base.to_string());
    assert!(p1.has_wild_card());
    assert!(p1.segments().is_some());
    assert!(p1.labels().is_some());

    let segments = p1.segments().unwrap();
    let labels = p1.labels().unwrap();

    assert_eq!(segments.len(), 2);
    assert_eq!(labels.len(), 1);
    assert_eq!(segments[0], "/users/");
    assert_eq!(segments[1], "/some");
    assert_eq!(p1.label_index("id").unwrap(), 0);
}

#[test]
fn create_path_with_two_labels() {
    let base = "/users/{id}/{name}";
    let p1 = Path::try_from(base).unwrap();
    assert_eq!(p1.raw_value(), &base.to_string());
    assert!(p1.has_wild_card());
    assert!(p1.segments().is_some());
    assert!(p1.labels().is_some());

    let segments = p1.segments().unwrap();
    let labels = p1.labels().unwrap();

    assert_eq!(segments.len(), 2);
    assert_eq!(labels.len(), 2);
    assert_eq!(segments[0], "/users/");
    assert_eq!(segments[1], "/");
    assert_eq!(p1.label_index("id").unwrap(), 0);
    assert_eq!(p1.label_index("name").unwrap(), 1);
}

#[test]
fn create_path_with_two_labels_with_trailing_segment() {
    let base = "/users/{id}/{name}/some";
    let p1 = Path::try_from(base).unwrap();
    assert_eq!(p1.raw_value(), &base.to_string());
    assert!(p1.has_wild_card());
    assert!(p1.segments().is_some());
    assert!(p1.labels().is_some());

    let segments = p1.segments().unwrap();
    let labels = p1.labels().unwrap();

    assert_eq!(segments.len(), 3);
    assert_eq!(labels.len(), 2);
    assert_eq!(segments[0], "/users/");
    assert_eq!(segments[1], "/");
    assert_eq!(segments[2], "/some");
    assert_eq!(p1.label_index("id").unwrap(), 0);
    assert_eq!(p1.label_index("name").unwrap(), 1);
}

#[test]
fn test_equal_path_with_wild_cards() {
    let p1 = Path::try_from("/users/{id}").unwrap();
    let p2 = Path::try_from("/users/1").unwrap();
    assert_eq!(p1, p2)
}

#[test]
fn test_equal_path_with_wild_cards_with_trailing_segment() {
    let p1 = Path::try_from("/users/{id}/some").unwrap();
    let p2 = Path::try_from("/users/1/some").unwrap();
    assert_eq!(p1, p2)
}

#[test]
fn test_equal_path_with_wild_cards_with_trailing_segment_but_not_equal_1() {
    let p1 = Path::try_from("/users/{id}/some").unwrap();
    let p2 = Path::try_from("/users/1").unwrap();
    assert_ne!(p1, p2);
}

#[test]
fn test_equal_path_with_wild_cards_with_trailing_segment_but_not_equal_2() {
    let p1 = Path::try_from("/users/{id}").unwrap();
    let p2 = Path::try_from("/users/1/some").unwrap();
    assert_eq!(p1, p2);
}

#[test]
fn test_equal_path_2_wild_cards_and_trailing_segment() {
    let p1 = Path::try_from("/users/{id}/info/{name}/some").unwrap();
    let p2 = Path::try_from("/users/1/info/mario/some").unwrap();
    assert_eq!(p1, p2);
}

#[test]
fn test_equal_path_2_wild_cards_and_trailing_segment_2() {
    let p1 = Path::try_from("/users/{id}/info/{name}/some").unwrap();
    let p2 = Path::try_from("/users/1/mario/info/some").unwrap();
    assert_ne!(p1, p2);
}

#[test]
fn test_equal_same_segments_different_labels() {
    let p1 = Path::try_from("/users/{id}/info/{name}/some").unwrap();
    let p2 = Path::try_from("/users/{name}/info/{id}/some").unwrap();
    assert_eq!(p1, p2);
}

#[test]
fn test_mal_formed_path() {
    let p1 = "/users/{id}/info/{name";
    Path::try_from(p1).unwrap_err();
}

#[test]
fn test_mal_formed_path_2() {
    let p1 = "/users/{id}}";
    Path::try_from(p1).unwrap_err();
}

#[test]
fn test_mal_formed_path_3() {
    let p1 = "/users/{{id}";
    Path::try_from(p1).unwrap_err();
}

#[test]
fn test_mal_formed_path_4() {
    let p1 = "/users/{id}/{id}";
    Path::try_from(p1).unwrap_err();
}

#[test]
fn pattern_error_kinds() {
    assert_eq!(Path::try_from("/a b/{x}").unwrap_err(), PathError::Whitespace);
    assert_eq!(Path::try_from("/a/{x}/{x}").unwrap_err(), PathError::DuplicatedLabel);
    assert_eq!(Path::try_from("/a/{x").unwrap_err(), PathError::MalFormed);
    assert_eq!(Path::try_from("/a/{x}}").unwrap_err(), PathError::MalFormed);
    assert_eq!(Path::try_from("/plain path").unwrap_err(), PathError::Whitespace);
}

#[test]
fn plain_patterns_are_checked_too() {
    assert_eq!(Path::try_from("/a b").unwrap_err(), PathError::Whitespace);
    assert_eq!(Path::try_from("/a}").unwrap_err(), PathError::MalFormed);
    assert!(Path::try_from("/a/b").is_ok());
}

#[test]
fn unicode_whitespace_is_refused() {
    assert_eq!(Path::try_from("/a\u{a0}b").unwrap_err(), PathError::Whitespace);
    assert_eq!(Path::try_from("/a\u{2003}/{x}").unwrap_err(), PathError::Whitespace);
    assert_eq!(Path::try_from("/{x}\u{3000}").unwrap_err(), PathError::Whitespace);
    assert_eq!(Path::try_from("/\u{85}").unwrap_err(), PathError::Whitespace);
    let p = Path::try_from("/caf\u{e9}/\u{2020}/{x}").unwrap();
    assert_eq!(p.segments().unwrap()[0], "/caf\u{e9}/\u{2020}/");
}

#[test]
fn first_error_in_order_wins() {
    assert_eq!(Path::try_from("/a}{ b").unwrap_err(), PathError::MalFormed);
    assert_eq!(Path::try_from("/a {b}}").unwrap_err(), PathError::Whitespace);
}

#[test]
fn distinct_plain_paths_differ() {
    let p1 = Path::try_from("/a").unwrap();
    let p2 = Path::try_from("/b").unwrap();
    assert_ne!(p1, p2);
    assert!(!p1.has_wild_card());
    assert!(p1.segments().is_none());
}

#[test]
fn patterns_with_different_segments_differ() {
    let p1 = Path::try_from("/users/{id}/info").unwrap();
    let p2 = Path::try_from("/users/{id}/data").unwrap();
    assert_ne!(p1, p2);
    assert_ne!(p2, p1);
}
