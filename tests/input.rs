use file_list::input::{clean_line, paths_from_list_lines, paths_from_piped_lines, strip_ansi_escapes};

#[test]
fn plain_line_is_kept_as_is() {
    assert_eq!(strip_ansi_escapes("  plain/path  "), "  plain/path  ");
}

#[test]
fn text_after_last_escape_is_kept() {
    assert_eq!(strip_ansi_escapes("\x1b[2J\x1b[1;1Hsrc/main.rs "), "src/main.rs");
    assert_eq!(strip_ansi_escapes("junk\x1b[0m  a/b.txt"), "a/b.txt");
}

#[test]
fn trailing_escape_falls_back_to_earlier_text() {
    assert_eq!(strip_ansi_escapes(" path.txt \x1b[0m"), "path.txt");
    assert_eq!(strip_ansi_escapes("x\x1b[31mred\x1b["), "red");
    assert_eq!(strip_ansi_escapes("\x1b[0m"), "");
}

#[test]
fn first_line_loses_byte_order_mark() {
    assert_eq!(clean_line(&"\u{feff}a.txt ".to_string(), true), "a.txt");
    assert_eq!(clean_line(&"\u{feff}a.txt".to_string(), false), "\u{feff}a.txt");
}

#[test]
fn piped_lines_become_paths() {
    let lines = vec![
        "\u{feff}one".to_string(),
        "   ".to_string(),
        "\x1b[1mtwo".to_string(),
        "\tthree\u{3000}".to_string(),
    ];
    assert_eq!(
        paths_from_piped_lines(&lines),
        vec!["one".to_string(), "two".to_string(), "three".to_string()]
    );
}

#[test]
fn list_file_lines_become_paths() {
    let lines = vec!["  a ".to_string(), "".to_string(), "b/c".to_string()];
    assert_eq!(paths_from_list_lines(&lines), vec!["a".to_string(), "b/c".to_string()]);
    assert!(paths_from_list_lines(&vec![]).is_empty());
}
