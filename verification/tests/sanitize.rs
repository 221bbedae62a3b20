use zj_agents::sanitize::{
    choose_display, clean_text, escape_notify_markup, sanitize_label, sanitize_metadata,
};

#[test]
fn sanitizer_removes_terminal_and_unicode_controls() {
    let raw = "\u{1b}]0;secret\u{7}\u{202e}repo\u{200b}\n\tname";
    assert_eq!(sanitize_label(raw, 60, 9), "reponame");
}

#[test]
fn empty_label_falls_back_to_pane_id() {
    assert_eq!(sanitize_label("\u{1b}[31m\u{1b}[0m", 60, 9), "pane 9");
}

#[test]
fn truncation_counts_unicode_scalars() {
    assert_eq!(sanitize_label("aé日z", 3, 9), "aé日");
}

#[test]
fn notify_markup_is_literal() {
    assert_eq!(escape_notify_markup("a&<b>"), "a&amp;&lt;b&gt;");
}

#[test]
fn manifest_labels_and_tab_names_use_the_same_control_stripping() {
    assert_eq!(
        sanitize_metadata("\u{1b}]0;secret\u{7}Grok\u{200b}", 60),
        "Grok"
    );
    assert_eq!(sanitize_metadata("\u{202e}work\u{2069}", 60), "work");
}

#[test]
fn choose_display_prefers_cwd_then_title() {
    assert_eq!(choose_display(Some("repo"), Some("title"), 3), "repo");
    assert_eq!(choose_display(None, Some("title"), 3), "title");
    assert_eq!(choose_display(None, None, 3), "pane 3");
}

#[test]
fn whitespace_runs_collapse_to_one_space() {
    assert_eq!(sanitize_metadata("  a \t\n b  c ", 60), "a b c");
    assert_eq!(sanitize_metadata("abcdef", 0), "");
    assert_eq!(choose_display(Some("\u{1b}[0m"), Some(" "), 12), "pane 12");
}

#[test]
fn stripping_is_done_by_the_ansi_stripper() {
    assert_eq!(sanitize_metadata("\u{1b}[1;32mgreen\u{1b}[0m text", 60), "green text");
}

#[test]
fn clean_text_keeps_visible_collapsed_prefix() {
    assert_eq!(clean_text("\u{7}a \t b\u{200b}c  ", 3), "a b");
    assert_eq!(clean_text("\u{7}a \t b\u{200b}c  ", 60), "a bc");
    // escapes are not its business: the ESC goes, the rest of the sequence stays
    assert_eq!(clean_text("\u{1b}[1mx", 60), "[1mx");
}
