use jtd_infer::{parse_json_pointer, HintSet};

#[test]
fn hint_set() {
    let path = vec!["a".to_string(), "b".to_string(), "c".to_string()];
    let hint_set = HintSet::new(vec![&path]);
    assert!(!hint_set.is_active());
    assert_eq!(None, hint_set.peek_active());

    assert!(!hint_set.sub_hints("a").is_active());
    assert_eq!(None, hint_set.sub_hints("a").peek_active());

    assert!(!hint_set.sub_hints("a").sub_hints("b").is_active());
    assert_eq!(
        Some("c"),
        hint_set.sub_hints("a").sub_hints("b").peek_active()
    );

    assert!(hint_set
        .sub_hints("a")
        .sub_hints("b")
        .sub_hints("c")
        .is_active());

    assert_eq!(
        None,
        hint_set
            .sub_hints("a")
            .sub_hints("b")
            .sub_hints("c")
            .peek_active()
    );
}

#[test]
fn hint_set_wildcard() {
    let path1 = vec!["a".to_string(), "b".to_string(), "c".to_string()];
    let path2 = vec!["d".to_string(), "-".to_string(), "e".to_string()];
    let hint_set = HintSet::new(vec![&path1, &path2]);

    assert!(!hint_set
        .sub_hints("a")
        .sub_hints("x")
        .sub_hints("c")
        .is_active());

    assert!(hint_set
        .sub_hints("d")
        .sub_hints("x")
        .sub_hints("e")
        .is_active());
}

#[test]
fn hint_set_empty_path_is_active_at_root() {
    let root: Vec<String> = vec![];
    let hint_set = HintSet::new(vec![&root]);
    assert!(hint_set.is_active());
    assert!(!hint_set.sub_hints("a").is_active());
}

#[test]
fn hint_set_digit_segment_matches_index() {
    let path = vec!["1".to_string()];
    let hint_set = HintSet::new(vec![&path]);
    assert!(hint_set.sub_hints("1").is_active());
    assert!(!hint_set.sub_hints("0").is_active());
    assert!(!hint_set.sub_hints("01").is_active());
}

#[test]
fn hint_set_peek_takes_first_single() {
    let p1 = vec!["x".to_string(), "y".to_string()];
    let p2 = vec!["kind".to_string()];
    let p3 = vec!["type".to_string()];
    let hint_set = HintSet::new(vec![&p1, &p2, &p3]);
    assert_eq!(Some("kind"), hint_set.peek_active());
}

#[test]
fn pointer_empty_is_root() {
    assert_eq!(Vec::<String>::new(), parse_json_pointer(""));
}

#[test]
fn pointer_segments_split_on_slash() {
    assert_eq!(vec!["a".to_string(), "b".to_string()], parse_json_pointer("/a/b"));
    assert_eq!(vec!["".to_string()], parse_json_pointer("/"));
    assert_eq!(vec!["-".to_string(), "x".to_string()], parse_json_pointer("/-/x"));
}

#[test]
fn pointer_escapes_decoded() {
    assert_eq!(vec!["a/b".to_string()], parse_json_pointer("/a~1b"));
    assert_eq!(vec!["a~b".to_string()], parse_json_pointer("/a!0b"));
    assert_eq!(vec!["~1".to_string()], parse_json_pointer("/!01"));
}

#[test]
fn pointer_text_before_first_slash_is_dropped() {
    assert_eq!(vec!["b".to_string()], parse_json_pointer("a/b"));
    assert_eq!(Vec::<String>::new(), parse_json_pointer("a"));
}
