use file_list::selection::{Classified, SelectionState};

fn resolved(path: &str, canonical: &str) -> Classified {
    Classified::new(path.to_string(), Some(canonical.to_string()))
}

fn missing(path: &str) -> Classified {
    Classified::new(path.to_string(), None)
}

fn valid_of(s: &SelectionState) -> Vec<String> {
    let mut v = s.iter_valid().clone();
    v.sort();
    v
}

fn invalid_of(s: &SelectionState) -> Vec<String> {
    let mut v = s.iter_invalid().clone();
    v.sort();
    v
}

#[test]
fn add_routes_by_classification() {
    let mut s = SelectionState::new();
    s.add_paths(vec![resolved("a.txt", "/w/a.txt"), missing("gone.txt")]);
    assert_eq!(valid_of(&s), vec!["/w/a.txt".to_string()]);
    assert_eq!(invalid_of(&s), vec!["gone.txt".to_string()]);
    assert_eq!(s.count(), 2);
}

#[test]
fn spellings_of_one_file_are_one_selection() {
    let mut s = SelectionState::new();
    s.add_paths(vec![resolved("a.txt", "/w/a.txt"), resolved("./a.txt", "/w/a.txt")]);
    assert_eq!(s.count(), 1);
}

#[test]
fn remove_leaves_invalid_set_alone() {
    let mut s = SelectionState::new();
    s.add_paths(vec![resolved("a", "/w/a"), missing("x")]);
    s.remove_paths(&vec![resolved("a", "/w/a"), missing("x")]);
    assert!(valid_of(&s).is_empty());
    assert_eq!(invalid_of(&s), vec!["x".to_string()]);
}

#[test]
fn toggle_twice_restores_membership() {
    let mut s = SelectionState::new();
    s.add_paths(vec![resolved("b", "/w/b")]);
    let a = resolved("a", "/w/a");
    s.toggle(&a);
    assert!(s.is_selected(&a));
    s.toggle(&a);
    assert!(!s.is_selected(&a));
    assert_eq!(valid_of(&s), vec!["/w/b".to_string()]);
    let b = resolved("b", "/w/b");
    s.toggle(&b);
    s.toggle(&b);
    assert!(s.is_selected(&b));
}

#[test]
fn toggle_of_unresolved_path_changes_nothing() {
    let mut s = SelectionState::new();
    s.toggle(&missing("nope"));
    assert_eq!(s.count(), 0);
    assert!(!s.is_selected(&missing("nope")));
}

#[test]
fn toggle_invalid_flips_literal_path() {
    let mut s = SelectionState::new();
    let p = "ghost/file".to_string();
    s.toggle_invalid(&p);
    assert!(s.is_invalid_selected(&p));
    s.toggle_invalid(&p);
    assert!(!s.is_invalid_selected(&p));
}

#[test]
fn never_in_both_sets_for_consistent_classification() {
    let mut s = SelectionState::new();
    s.add_paths(vec![resolved("a", "/w/a"), missing("/w/z"), missing("q")]);
    s.toggle(&resolved("a", "/w/a"));
    s.add_paths(vec![resolved("/w/a", "/w/a"), missing("q")]);
    s.remove_paths(&vec![missing("/w/z")]);
    for v in valid_of(&s) {
        assert!(!s.is_invalid_selected(&v));
    }
    assert_eq!(valid_of(&s), vec!["/w/a".to_string()]);
    assert_eq!(invalid_of(&s), vec!["/w/z".to_string(), "q".to_string()]);
}

#[test]
fn output_relative_forms() {
    let mut s = SelectionState::new();
    s.add_paths(vec![
        resolved("b.txt", "/w/b.txt"),
        resolved("sub/a.txt", "/w/sub/a.txt"),
        resolved("/etc/hosts", "/etc/hosts"),
        missing("new.txt"),
        missing("./dot.txt"),
        missing("/abs/missing"),
    ]);
    let out = s.to_output(false, &"/w".to_string());
    assert_eq!(
        out,
        vec![
            "./b.txt".to_string(),
            "./dot.txt".to_string(),
            "./new.txt".to_string(),
            "./sub/a.txt".to_string(),
            "/abs/missing".to_string(),
            "/etc/hosts".to_string(),
        ]
    );
}

#[test]
fn output_absolute_forms() {
    let mut s = SelectionState::new();
    s.add_paths(vec![
        resolved("b.txt", "/w/b.txt"),
        missing("new.txt"),
        missing("/abs/missing"),
    ]);
    let out = s.to_output(true, &"/w".to_string());
    assert_eq!(
        out,
        vec!["/abs/missing".to_string(), "/w/b.txt".to_string(), "/w/new.txt".to_string()]
    );
}

#[test]
fn output_is_sorted_without_duplicates_and_stable() {
    let mut s = SelectionState::new();
    s.add_paths(vec![resolved("x", "/w/x"), missing("x"), missing("./x"), resolved("a", "/w/a")]);
    let first = s.to_output(false, &"/w".to_string());
    let second = s.to_output(false, &"/w".to_string());
    assert_eq!(first, vec!["./a".to_string(), "./x".to_string()]);
    assert_eq!(first, second);
}

#[test]
fn output_of_base_itself() {
    let mut s = SelectionState::new();
    s.add_paths(vec![resolved(".", "/w")]);
    assert_eq!(s.to_output(false, &"/w".to_string()), vec!["./".to_string()]);
}

#[test]
fn output_of_empty_selection() {
    let s = SelectionState::new();
    assert!(s.to_output(false, &"/w".to_string()).is_empty());
    assert_eq!(s.count(), 0);
}

#[test]
fn output_sorts_by_code_point() {
    let mut s = SelectionState::new();
    s.add_paths(vec![
        resolved("B", "/w/B"),
        resolved("a", "/w/a"),
        resolved("é", "/w/é"),
        resolved("Z", "/w/Z"),
    ]);
    assert_eq!(
        s.to_output(true, &"/w".to_string()),
        vec!["/w/B".to_string(), "/w/Z".to_string(), "/w/a".to_string(), "/w/é".to_string()]
    );
}
