use file_list::app::{pick_match, App, AppAction, Effect, FocusedPane, Key};
use file_list::config::Config;
use file_list::file_browser::FileEntry;
use file_list::selection::Classified;
use file_list::ui::{collect_display_paths, count_selected_in_dir, format_entry_name};

fn dir(path: &str) -> FileEntry {
    FileEntry::from_path(path.to_string(), true)
}

fn file(path: &str) -> FileEntry {
    FileEntry::from_path(path.to_string(), false)
}

fn resolved(path: &str) -> Classified {
    Classified::new(path.to_string(), Some(path.to_string()))
}

fn session(pre: Vec<Classified>, listing: Vec<FileEntry>) -> App {
    let mut app = App::new("/w".to_string(), false, false, pre, None);
    let probes = app.browser.invalid_paths.iter().map(|_| Vec::new()).collect();
    app.browser.refresh(listing, probes);
    app
}

fn done(e: Effect) -> AppAction {
    match e {
        Effect::Done(a) => a,
        other => panic!("expected a finished key, got {:?}", other),
    }
}

fn classify_request(e: Effect) -> Vec<String> {
    match e {
        Effect::Classify(v) => v,
        other => panic!("expected a classification request, got {:?}", other),
    }
}

#[test]
fn quit_confirm_and_save_keys() {
    let mut app = session(vec![], vec![]);
    assert_eq!(done(app.handle_key(Key::Char('q'))), AppAction::Quit);
    assert_eq!(done(app.handle_key(Key::Esc)), AppAction::Quit);
    assert_eq!(done(app.handle_key(Key::Enter)), AppAction::Confirm);
    assert_eq!(done(app.handle_key(Key::Char('s'))), AppAction::Continue);
    assert!(!app.can_save());
    let mut saving = App::new("/w".to_string(), false, false, vec![], Some("list.txt".to_string()));
    assert!(saving.can_save());
    assert_eq!(saving.selections_file(), Some(&"list.txt".to_string()));
    assert_eq!(done(saving.handle_key(Key::Char('s'))), AppAction::Save);
    assert_eq!(done(saving.handle_key(Key::Other)), AppAction::Continue);
}

#[test]
fn search_prefers_prefix_in_listing_order() {
    let mut app = session(
        vec![],
        vec![file("/w/Readme.md"), file("/w/report.txt"), dir("/w/src")],
    );
    let names: Vec<String> = app.browser.entries.iter().map(|e| e.name.clone()).collect();
    assert_eq!(
        names,
        vec!["src".to_string(), "Readme.md".to_string(), "report.txt".to_string()]
    );
    assert_eq!(done(app.handle_key(Key::Char('/'))), AppAction::Continue);
    assert!(app.search_mode);
    app.handle_key(Key::Char('r'));
    app.handle_key(Key::Char('e'));
    assert_eq!(app.search_query, "re");
    assert_eq!(app.browser.entries[app.browser.cursor].name, "Readme.md");
    app.handle_key(Key::Enter);
    assert!(!app.search_mode);
    assert_eq!(app.search_query, "re");
}

#[test]
fn search_in_given_order_lands_on_first_prefix_match() {
    let mut app = session(vec![], vec![]);
    app.browser.entries = vec![file("/w/Readme.md"), file("/w/report.txt"), file("/w/src")];
    app.browser.cursor = 2;
    app.search_query = "re".to_string();
    app.jump_to_match();
    assert_eq!(app.browser.cursor, 0);
    app.search_query = "RC".to_string();
    app.jump_to_match();
    assert_eq!(app.browser.cursor, 2);
    app.search_query = "zzz".to_string();
    app.jump_to_match();
    assert_eq!(app.browser.cursor, 2);
}

#[test]
fn search_backspace_and_escape() {
    let mut app = session(vec![], vec![file("/w/alpha"), file("/w/beta")]);
    app.browser.scroll_offset = 1;
    app.browser.cursor = 1;
    app.handle_key(Key::Char('/'));
    app.handle_key(Key::Char('a'));
    app.handle_key(Key::Char('x'));
    assert_eq!(app.browser.cursor, 0);
    assert_eq!(app.browser.scroll_offset, 0);
    app.handle_key(Key::Backspace);
    assert_eq!(app.search_query, "a");
    app.handle_key(Key::Esc);
    assert!(!app.search_mode);
    assert_eq!(app.search_query, "");
}

#[test]
fn space_on_real_row_asks_then_flips() {
    let mut app = session(vec![], vec![file("/w/a.txt")]);
    let paths = classify_request(app.handle_key(Key::Char(' ')));
    assert_eq!(paths, vec!["/w/a.txt".to_string()]);
    app.resume(vec![resolved("/w/a.txt")]);
    assert!(app.selection.is_selected(&resolved("/w/a.txt")));
    let paths = classify_request(app.handle_key(Key::Char(' ')));
    app.resume(paths.iter().map(|p| resolved(p)).collect());
    assert!(!app.selection.is_selected(&resolved("/w/a.txt")));
}

#[test]
fn space_on_missing_row_flips_at_once() {
    let mut app = App::new(
        "/w".to_string(),
        false,
        false,
        vec![Classified::new("lost.txt".to_string(), None)],
        None,
    );
    app.browser.refresh(vec![], vec![vec![None]]);
    assert_eq!(app.browser.entries.len(), 1);
    assert!(app.browser.entries[0].is_invalid);
    assert_eq!(done(app.handle_key(Key::Char(' '))), AppAction::Continue);
    assert!(!app.selection.is_invalid_selected(&"lost.txt".to_string()));
    assert_eq!(app.selection.count(), 0);
    app.handle_key(Key::Char(' '));
    assert!(app.selection.is_invalid_selected(&"lost.txt".to_string()));
}

#[test]
fn recursive_toggle_is_all_or_nothing() {
    let mut app = session(vec![], vec![dir("/w/d")]);
    let files = vec![resolved("/w/d/a"), resolved("/w/d/b"), resolved("/w/d/c")];
    match app.handle_key(Key::Char('r')) {
        Effect::CollectFiles(d) => assert_eq!(d, "/w/d"),
        other => panic!("expected a collection request, got {:?}", other),
    }
    app.resume(files.clone());
    for f in &files {
        assert!(app.selection.is_selected(f));
    }
    app.handle_key(Key::Char('r'));
    app.resume(files.clone());
    for f in &files {
        assert!(!app.selection.is_selected(f));
    }
}

#[test]
fn recursive_toggle_completes_a_partial_selection() {
    let mut app = session(vec![resolved("/w/d/a")], vec![dir("/w/d")]);
    app.handle_key(Key::Char('r'));
    app.resume(vec![resolved("/w/d/a"), resolved("/w/d/b")]);
    assert_eq!(app.selection.count(), 2);
}

#[test]
fn recursive_toggle_skips_hidden_files_unless_shown() {
    let mut app = session(vec![], vec![dir("/w/d")]);
    app.handle_key(Key::Char('r'));
    app.resume(vec![resolved("/w/d/.secret"), resolved("/w/d/.cfg/visible")]);
    assert!(!app.selection.is_selected(&resolved("/w/d/.secret")));
    assert!(app.selection.is_selected(&resolved("/w/d/.cfg/visible")));
}

#[test]
fn recursive_toggle_ignores_files_and_empty_directories() {
    let mut app = session(vec![], vec![file("/w/f")]);
    assert_eq!(done(app.handle_key(Key::Char('r'))), AppAction::Continue);
    let mut app = session(vec![], vec![dir("/w/empty")]);
    app.handle_key(Key::Char('r'));
    app.resume(vec![]);
    assert_eq!(app.selection.count(), 0);
}

#[test]
fn toggle_all_in_current_directory() {
    let mut app = session(vec![], vec![file("/w/a"), file("/w/b")]);
    let paths = classify_request(app.handle_key(Key::Char('a')));
    assert_eq!(paths, vec!["/w/a".to_string(), "/w/b".to_string()]);
    app.resume(paths.iter().map(|p| resolved(p)).collect());
    assert_eq!(app.selection.count(), 2);
    let paths = classify_request(app.handle_key(Key::Char('a')));
    app.resume(paths.iter().map(|p| resolved(p)).collect());
    assert_eq!(app.selection.count(), 0);
    let mut empty = session(vec![], vec![]);
    assert_eq!(done(empty.handle_key(Key::Char('a'))), AppAction::Continue);
}

#[test]
fn tab_switches_panes_and_clamps() {
    let mut app = session(vec![resolved("/w/a"), resolved("/w/b")], vec![]);
    app.selected_cursor = 5;
    app.handle_key(Key::Tab);
    assert_eq!(app.focused_pane, FocusedPane::Selected);
    assert_eq!(app.selected_cursor, 1);
    app.handle_key(Key::Up);
    assert_eq!(app.selected_cursor, 0);
    app.handle_key(Key::Char('j'));
    app.handle_key(Key::Down);
    assert_eq!(app.selected_cursor, 1);
    app.handle_key(Key::Tab);
    assert_eq!(app.focused_pane, FocusedPane::Files);
    assert_eq!(FocusedPane::default(), FocusedPane::Files);
    assert_eq!(FocusedPane::Files.toggle(), FocusedPane::Selected);
}

#[test]
fn deselect_in_selection_pane() {
    let mut app = App::new(
        "/w".to_string(),
        false,
        false,
        vec![resolved("/w/b"), Classified::new("a-missing".to_string(), None)],
        None,
    );
    app.browser.refresh(vec![], vec![vec![]]);
    assert_eq!(
        app.get_selected_list(),
        vec![("a-missing".to_string(), false), ("/w/b".to_string(), true)]
    );
    app.handle_key(Key::Tab);
    assert_eq!(done(app.handle_key(Key::Char(' '))), AppAction::Continue);
    assert_eq!(app.selection.count(), 1);
    let paths = classify_request(app.handle_key(Key::Char(' ')));
    assert_eq!(paths, vec!["/w/b".to_string()]);
    app.resume(vec![resolved("/w/b")]);
    assert_eq!(app.selection.count(), 0);
    assert_eq!(app.selected_cursor, 0);
}

#[test]
fn navigation_keys_ask_for_reload() {
    let mut app = session(vec![], vec![dir("/w/sub")]);
    assert!(matches!(app.handle_key(Key::Right), Effect::Reload));
    assert_eq!(app.browser.current_dir, "/w/sub");
    app.browser.refresh(vec![], vec![]);
    assert!(matches!(app.handle_key(Key::Char('h')), Effect::Reload));
    assert_eq!(app.browser.current_dir, "/w");
    app.browser.refresh(vec![dir("/w/sub")], vec![]);
    assert_eq!(app.browser.cursor, 0);
    assert!(matches!(app.handle_key(Key::Char('.')), Effect::Reload));
    assert!(app.browser.show_hidden);
}

#[test]
fn display_paths_and_output() {
    let app = session(
        vec![resolved("/w/x/y"), Classified::new("new".to_string(), None)],
        vec![],
    );
    assert_eq!(
        collect_display_paths(&app),
        vec![("./new".to_string(), false), ("./x/y".to_string(), true)]
    );
    assert_eq!(app.format_path_for_display(&"/w/x/y".to_string(), true), "./x/y");
    assert_eq!(app.format_path_for_display(&"/elsewhere".to_string(), true), "/elsewhere");
    assert_eq!(app.format_path_for_display(&"./k".to_string(), false), "./k");
    assert_eq!(app.get_output(), vec!["./new".to_string(), "./x/y".to_string()]);
}

#[test]
fn counts_and_labels_in_file_pane() {
    let app = session(
        vec![
            resolved("/w/d/a"),
            resolved("/w/d/e/f"),
            resolved("/w/dd"),
            Classified::new("d/missing".to_string(), None),
        ],
        vec![],
    );
    let d = "/w/d".to_string();
    assert_eq!(count_selected_in_dir(Some(&d), &app), 3);
    assert_eq!(count_selected_in_dir(None, &app), 0);
    let entry = dir("/w/d");
    assert_eq!(format_entry_name(&entry, 3), "d/ (3)");
    assert_eq!(format_entry_name(&entry, 12), "d/ (12)");
    assert_eq!(format_entry_name(&entry, 0), "d/");
    assert_eq!(format_entry_name(&file("/w/f.txt"), 4), "f.txt");
}

#[test]
fn selection_pane_scrolls_with_cursor() {
    let mut app = session(vec![], vec![]);
    app.selected_cursor = 9;
    app.adjust_selected_scroll(4);
    assert_eq!(app.selected_scroll_offset, 6);
    app.adjust_selected_scroll(0);
    assert_eq!(app.selected_scroll_offset, 6);
}

#[test]
fn absolute_output_needs_flag_without_relative() {
    let mut c = Config {
        absolute: true,
        relative: false,
        show_hidden: false,
        selections_file: None,
        files: vec![],
    };
    assert!(c.use_absolute_paths());
    c.relative = true;
    assert!(!c.use_absolute_paths());
    c.absolute = false;
    assert!(!c.use_absolute_paths());
}

#[test]
fn pick_match_prefers_prefix_then_contains() {
    let names = vec!["readme.md".to_string(), "report.txt".to_string(), "src".to_string()];
    assert_eq!(pick_match(&names, &"re".to_string()), Some(0));
    assert_eq!(pick_match(&names, &"rep".to_string()), Some(1));
    assert_eq!(pick_match(&names, &"rc".to_string()), Some(2));
    assert_eq!(pick_match(&names, &"zz".to_string()), None);
    assert_eq!(pick_match(&vec![], &"a".to_string()), None);
}
