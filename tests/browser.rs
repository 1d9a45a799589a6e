use file_list::file_browser::{extract_name, sort_keyed, BrowserState, FileEntry};

fn dir(path: &str) -> FileEntry {
    FileEntry::from_path(path.to_string(), true)
}

fn file(path: &str) -> FileEntry {
    FileEntry::from_path(path.to_string(), false)
}

fn names(b: &BrowserState) -> Vec<String> {
    b.entries.iter().map(|e| e.name.clone()).collect()
}

fn probes_for(b: &BrowserState, answers: &[Option<&str>]) -> Vec<Option<String>> {
    let _ = b;
    answers.iter().map(|a| a.map(|s| s.to_string())).collect()
}

#[test]
fn names_come_from_last_component() {
    assert_eq!(extract_name(&"/a/b/c.txt".to_string()), "c.txt");
    assert_eq!(extract_name(&"/a/b/".to_string()), "b");
    assert_eq!(extract_name(&"/".to_string()), "/");
    assert_eq!(extract_name(&"x/..".to_string()), "x/..");
    let e = file("/r/notes.md");
    assert_eq!(e.name, "notes.md");
    assert!(!e.is_dir && !e.is_invalid);
    let m = FileEntry::invalid("gone/x".to_string(), "gone/x".to_string());
    assert!(m.is_invalid && !m.is_dir);
}

#[test]
fn listing_sort_hides_and_orders() {
    let mut b = BrowserState::new("/r".to_string(), false);
    let listing = || vec![file("/r/afile"), file("/r/.hidden"), dir("/r/Zdir")];
    b.refresh(listing(), vec![]);
    assert_eq!(names(&b), vec!["Zdir".to_string(), "afile".to_string()]);
    b.toggle_hidden();
    assert!(b.show_hidden);
    b.refresh(listing(), vec![]);
    assert_eq!(
        names(&b),
        vec!["Zdir".to_string(), ".hidden".to_string(), "afile".to_string()]
    );
}

#[test]
fn listing_sort_is_case_insensitive_within_groups() {
    let mut b = BrowserState::new("/r".to_string(), true);
    b.refresh(
        vec![file("/r/b.txt"), dir("/r/beta"), file("/r/A.txt"), dir("/r/Alpha")],
        vec![],
    );
    assert_eq!(
        names(&b),
        vec![
            "Alpha".to_string(),
            "beta".to_string(),
            "A.txt".to_string(),
            "b.txt".to_string()
        ]
    );
}

#[test]
fn resolver_places_missing_path_where_it_stops_existing() {
    let b = BrowserState::new("/root".to_string(), false);
    let p = "foo/bar/baz.txt".to_string();
    assert_eq!(
        b.display_probes(&p),
        vec![
            "/root/foo".to_string(),
            "/root/foo/bar".to_string(),
            "/root/foo/bar/baz.txt".to_string()
        ]
    );
    let found = b.find_display_location(&p, &probes_for(&b, &[Some("/root/foo"), None, None]));
    assert_eq!(found, Some(("/root/foo".to_string(), "bar/baz.txt".to_string())));
}

#[test]
fn resolver_at_base_and_outside_base() {
    let b = BrowserState::new("/root".to_string(), false);
    let p = "/root/a/b".to_string();
    assert_eq!(
        b.find_display_location(&p, &vec![None, None]),
        Some(("/root".to_string(), "a/b".to_string()))
    );
    assert_eq!(b.find_display_location(&"/elsewhere/x".to_string(), &vec![None]), None);
    assert_eq!(
        b.find_display_location(&"a".to_string(), &vec![Some("/root/a".to_string())]),
        None
    );
    assert!(b.display_probes(&"/elsewhere/x".to_string()).is_empty());
}

#[test]
fn refresh_shows_missing_rows_in_their_directory_only() {
    let mut b = BrowserState::new("/root".to_string(), false);
    b.add_invalid_paths(vec!["new.txt".to_string(), "foo/deep/x".to_string(), "new.txt".to_string()]);
    assert_eq!(b.invalid_paths.len(), 2);
    let probes = vec![vec![None], vec![Some("/root/foo".to_string()), None, None]];
    b.refresh(vec![dir("/root/foo"), file("/root/z.txt")], probes.clone());
    assert_eq!(
        names(&b),
        vec!["foo".to_string(), "z.txt".to_string(), "new.txt".to_string()]
    );
    assert!(b.entries[2].is_invalid);
    assert_eq!(b.entries[2].path, "new.txt");
    b.cursor = 0;
    assert!(b.enter_directory());
    b.refresh(vec![], probes);
    assert_eq!(names(&b), vec!["deep/x".to_string()]);
}

#[test]
fn real_entry_wins_over_missing_row_of_same_label() {
    let mut b = BrowserState::new("/root".to_string(), false);
    b.add_invalid_paths(vec!["dup".to_string()]);
    b.refresh(vec![file("/root/dup")], vec![vec![None]]);
    assert_eq!(names(&b), vec!["dup".to_string()]);
    assert!(!b.entries[0].is_invalid);
}

#[test]
fn cursor_moves_and_saturates() {
    let mut b = BrowserState::new("/r".to_string(), false);
    b.refresh(vec![file("/r/a"), file("/r/b"), file("/r/c")], vec![]);
    b.move_up();
    assert_eq!(b.cursor, 0);
    b.move_down();
    b.move_down();
    b.move_down();
    assert_eq!(b.cursor, 2);
    b.scroll_offset = 2;
    b.move_up();
    assert_eq!((b.cursor, b.scroll_offset), (1, 1));
    assert_eq!(b.current_entry().map(|e| e.name.clone()), Some("b".to_string()));
}

#[test]
fn refresh_clamps_cursor() {
    let mut b = BrowserState::new("/r".to_string(), false);
    b.refresh(vec![file("/r/a"), file("/r/b"), file("/r/c")], vec![]);
    b.cursor = 2;
    b.refresh(vec![file("/r/a")], vec![]);
    assert_eq!(b.cursor, 0);
    b.refresh(vec![], vec![]);
    assert_eq!(b.cursor, 0);
    assert!(b.current_entry().is_none());
}

#[test]
fn adjust_scroll_keeps_cursor_visible() {
    let mut b = BrowserState::new("/r".to_string(), false);
    let listing: Vec<FileEntry> = (0..10).map(|i| file(&format!("/r/f{}", i))).collect();
    b.refresh(listing, vec![]);
    b.cursor = 7;
    b.adjust_scroll(3);
    assert_eq!(b.scroll_offset, 5);
    b.adjust_scroll(0);
    assert_eq!(b.scroll_offset, 5);
    b.cursor = 6;
    b.adjust_scroll(3);
    assert_eq!(b.scroll_offset, 5);
}

#[test]
fn parent_then_enter_returns_to_same_directory() {
    let mut b = BrowserState::new("/r".to_string(), false);
    let root = || vec![dir("/r/a"), dir("/r/b"), file("/r/c")];
    b.refresh(root(), vec![]);
    b.cursor = 1;
    assert!(b.enter_directory());
    assert_eq!(b.current_dir, "/r/b");
    assert_eq!((b.cursor, b.scroll_offset), (0, 0));
    b.refresh(vec![file("/r/b/inner")], vec![]);
    assert!(b.go_parent());
    assert_eq!(b.current_dir, "/r");
    b.refresh(root(), vec![]);
    assert_eq!(b.cursor, 1);
    assert_eq!(b.scroll_offset, 1);
    assert!(b.enter_directory());
    assert_eq!(b.current_dir, "/r/b");
}

#[test]
fn parent_of_vanished_directory_puts_cursor_at_top() {
    let mut b = BrowserState::new("/r/gone".to_string(), false);
    assert!(b.go_parent());
    b.refresh(vec![dir("/r/x"), dir("/r/y")], vec![]);
    assert_eq!(b.cursor, 0);
}

#[test]
fn root_has_no_parent_and_files_are_not_entered() {
    let mut b = BrowserState::new("/".to_string(), false);
    assert!(!b.go_parent());
    assert_eq!(b.current_dir, "/");
    b.refresh(vec![file("/f")], vec![]);
    assert!(!b.enter_directory());
    assert_eq!(b.current_dir, "/");
}

#[test]
fn keyed_sort_orders_by_group_then_given_key() {
    let rows = vec![
        (file("/r/x"), "b".to_string()),
        (FileEntry::invalid("m".to_string(), "m".to_string()), "a".to_string()),
        (dir("/r/y"), "z".to_string()),
        (file("/r/w"), "a".to_string()),
    ];
    let sorted: Vec<String> = sort_keyed(rows).into_iter().map(|(e, _)| e.name).collect();
    assert_eq!(
        sorted,
        vec!["y".to_string(), "w".to_string(), "x".to_string(), "m".to_string()]
    );
    assert!(sort_keyed(vec![]).is_empty());
}

#[test]
fn probes_below_filesystem_root() {
    let b = BrowserState::new("/".to_string(), false);
    let p = "a/b".to_string();
    assert_eq!(b.display_probes(&p), vec!["/a".to_string(), "/a/b".to_string()]);
    assert_eq!(
        b.find_display_location(&p, &vec![Some("/a".to_string()), None]),
        Some(("/a".to_string(), "b".to_string()))
    );
}

#[test]
fn probes_skip_empty_and_dot_components() {
    let b = BrowserState::new("/root".to_string(), false);
    let p = "./x//y".to_string();
    assert_eq!(
        b.display_probes(&p),
        vec!["/root/x".to_string(), "/root/x/y".to_string()]
    );
    assert_eq!(
        b.find_display_location(&p, &vec![None, None]),
        Some(("/root".to_string(), "x/y".to_string()))
    );
}

#[test]
fn first_missing_label_wins_within_a_directory() {
    let mut b = BrowserState::new("/root".to_string(), false);
    b.add_invalid_paths(vec!["/root/n".to_string(), "n".to_string()]);
    b.refresh(vec![], vec![vec![None], vec![None]]);
    assert_eq!(b.entries.len(), 1);
    assert_eq!(b.entries[0].path, "/root/n");
    assert_eq!(b.entries[0].name, "n");
}
