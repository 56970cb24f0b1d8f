use cat_history::preview::{build_file_preview, build_text_preview, display_name_exec};

#[test]
fn long_single_line_truncates_to_120_chars_and_ellipsis() {
    let text: String = "x".repeat(200);
    let preview = build_text_preview(&text);
    assert_eq!(preview.chars().count(), 121);
    assert!(preview.ends_with('…'));
    assert_eq!(&preview[..120], &text[..120]);
}

#[test]
fn truncation_breaks_at_a_character_boundary() {
    // multi-byte characters around the cut: the count is in characters
    let text: String = "汉".repeat(200);
    let preview = build_text_preview(&text);
    assert_eq!(preview.chars().count(), 121);
    assert!(preview.ends_with('…'));
    assert!(preview.starts_with(&"汉".repeat(120)));
}

#[test]
fn preview_keeps_at_most_six_lines() {
    let text = "l1\nl2\nl3\nl4\nl5\nl6\nl7\nl8";
    assert_eq!(build_text_preview(text), "l1\nl2\nl3\nl4\nl5\nl6");
    let short = "a\nb";
    assert_eq!(build_text_preview(short), "a\nb");
}

#[test]
fn preview_trims_before_cutting() {
    assert_eq!(build_text_preview("  hello  "), "hello");
    assert_eq!(build_text_preview("\n\nfirst\nsecond\n\n"), "first\nsecond");
}

#[test]
fn file_preview_lists_base_names() {
    let files = vec!["C:\\docs\\a.txt".to_string(), "/tmp/b.png".to_string()];
    assert_eq!(build_file_preview(&files), "a.txt\nb.png");
}

#[test]
fn file_preview_counts_beyond_three() {
    let files = vec![
        "/p/one".to_string(),
        "/p/two".to_string(),
        "/p/three".to_string(),
        "/p/four".to_string(),
        "/p/five".to_string(),
    ];
    assert_eq!(build_file_preview(&files), "one\ntwo\nthree\n… 等 5 个文件");
}

#[test]
fn display_name_ignores_trailing_separators() {
    assert_eq!(display_name_exec("dir/"), "dir");
    assert_eq!(display_name_exec("a/b//"), "b");
    assert_eq!(display_name_exec("a/b/c.txt"), "c.txt");
    assert_eq!(display_name_exec("noslash"), "noslash");
}

#[test]
fn display_name_falls_back_to_full_path() {
    assert_eq!(display_name_exec(""), "");
    assert_eq!(display_name_exec("///"), "///");
    assert_eq!(display_name_exec("\\"), "\\");
}
