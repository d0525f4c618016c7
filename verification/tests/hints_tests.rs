use json_typegen_shared::hints::{Hint, HintType, Hints};

#[test]
fn basic_pointers() {
    let hint = Hint::default_map();
    assert!(!hint.used);
    let mut hints = Hints::new();
    hints.add("/a/b", 0);
    hints.add("/foo", 0);
    hints.add("/foo", 0);
    hints.add("", 0);

    assert_eq!(hints.hints.len(), 3);
    assert_eq!(hints.applicable.len(), 1);
}

#[test]
fn step_field() {
    let hint = Hint::default_map();
    assert!(!hint.used);
    let mut hints = Hints::new();
    hints.add("/a/b", 0);
    hints.add("/b/c", 0);
    hints.add("/b/", 0);
    hints.add("/b", 0);

    let hints = hints.step_field("b");

    assert_eq!(hints.hints.len(), 2);
    assert_eq!(hints.applicable.len(), 1);
}

#[test]
fn default_map_hint() {
    let hint = Hint::default_map();
    assert!(matches!(hint.hint_type, HintType::UseMap(name) if name == "::std::collections::HashMap"));
    assert!(!hint.used);
}

#[test]
fn pattern_resolved_exactly_once() {
    let mut hints = Hints::new();
    hints.add("/a/b", 7);

    let step1 = hints.step_field("a");
    assert_eq!(step1.applicable.len(), 0);
    assert_eq!(step1.hints.len(), 1);

    let step2 = step1.step_field("b");
    assert_eq!(step2.applicable, vec![7]);
    assert_eq!(step2.hints.len(), 0);
}

#[test]
fn wildcard_rejected_by_step_index() {
    let mut hints = Hints::new();
    hints.add("/-", 3);

    let by_index = hints.step_index(0);
    assert_eq!(by_index.applicable.len(), 0);
    assert_eq!(by_index.hints.len(), 0);

    let by_array = hints.step_array();
    assert_eq!(by_array.applicable, vec![3]);
    assert_eq!(by_array.hints.len(), 0);
}

#[test]
fn step_any_consumes_every_first_segment() {
    let mut hints = Hints::new();
    hints.add("/1/b", 0);
    hints.add("/a/c", 1);
    hints.add("/-/e", 2);

    let stepped = hints.step_any();
    assert_eq!(stepped.hints.len(), 3);
    assert_eq!(stepped.applicable.len(), 0);
}

#[test]
fn step_array_keeps_numerals_and_wildcard() {
    let mut hints = Hints::new();
    hints.add("/1/b", 0);
    hints.add("/a/c", 1);
    hints.add("/-/e", 2);

    let stepped = hints.step_array();
    assert_eq!(stepped.hints.len(), 2);
    assert_eq!(stepped.hints[0].1, 0);
    assert_eq!(stepped.hints[1].1, 2);
    assert_eq!(stepped.applicable.len(), 0);
}

#[test]
fn step_index_matches_decimal_text_only() {
    let mut hints = Hints::new();
    hints.add("/2/b", 0);
    hints.add("/a/c", 1);
    hints.add("/-/e", 2);
    hints.add("/3/d", 3);

    let stepped = hints.step_index(3);
    assert_eq!(stepped.hints.len(), 1);
    assert_eq!(stepped.hints[0].0, vec!["d".to_string()]);
    assert_eq!(stepped.hints[0].1, 3);
    assert_eq!(stepped.applicable.len(), 0);
}

#[test]
fn step_array_rejects_leading_zero_and_empty_segments() {
    let mut hints = Hints::new();
    hints.add("/007/a", 0);
    hints.add("/0/b", 1);
    hints.add("//c", 2);
    hints.add("/10/d", 3);

    let stepped = hints.step_array();
    assert_eq!(stepped.hints.len(), 2);
    assert_eq!(stepped.hints[0].1, 1);
    assert_eq!(stepped.hints[1].1, 3);
    assert_eq!(stepped.applicable.len(), 0);
}

#[test]
fn step_index_two_digit() {
    let mut hints = Hints::new();
    hints.add("/10/x", 4);

    assert_eq!(hints.step_index(10).hints.len(), 1);
    assert_eq!(hints.step_index(1).hints.len(), 0);
    assert_eq!(hints.step_index(0).hints.len(), 0);
}

#[test]
fn trailing_separator_leaves_empty_segment() {
    let mut hints = Hints::new();
    hints.add("/b/", 5);

    let step1 = hints.step_field("b");
    assert_eq!(step1.hints.len(), 1);
    assert_eq!(step1.hints[0].0, vec![String::new()]);

    let step2 = step1.step_field("");
    assert_eq!(step2.applicable, vec![5]);
    assert_eq!(step2.hints.len(), 0);
}

#[test]
fn root_registration_is_immediately_applicable() {
    let mut hints = Hints::new();
    hints.add("", 9);
    assert_eq!(hints.applicable, vec![9]);
    assert_eq!(hints.hints.len(), 0);
}

#[test]
fn stepping_drops_previously_applicable() {
    let mut hints = Hints::new();
    hints.add("", 1);
    hints.add("/a", 2);

    let stepped = hints.step_field("a");
    assert_eq!(stepped.applicable, vec![2]);
    assert_eq!(stepped.hints.len(), 0);
}

#[test]
fn registration_order_kept_among_simultaneous_hints() {
    let mut hints = Hints::new();
    hints.add("/a", 0);
    hints.add("/a", 1);
    hints.add("/-", 2);

    let stepped = hints.step_any();
    assert_eq!(stepped.applicable, vec![0, 1, 2]);
}
