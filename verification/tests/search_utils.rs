//! Previews, query words and rankings.
use obsidian_vault::search_utils::{body_preview, compile_query_word_regex, top_ranked};

// ── body_preview ────────────────────────────────────────────────

#[test]
fn body_preview_strips_frontmatter() {
    let content = "---\ntags: [a]\n---\nHello world";
    let preview = body_preview(content, 100);
    assert_eq!(preview, "Hello world");
}

#[test]
fn body_preview_no_frontmatter() {
    let content = "# Title\nSome body text";
    let preview = body_preview(content, 100);
    assert_eq!(preview, "# Title\nSome body text");
}

#[test]
fn body_preview_truncates() {
    let content = "---\nk: v\n---\nABCDEFGHIJ";
    let preview = body_preview(content, 5);
    assert_eq!(preview, "ABCDE");
}

#[test]
fn body_preview_empty_content() {
    let preview = body_preview("", 100);
    assert_eq!(preview, "");
}

#[test]
fn body_preview_unclosed_frontmatter() {
    let content = "---\ntags: [a]\nNo closing delimiter here";
    let preview = body_preview(content, 200);
    assert!(preview.contains("tags:"));
}

#[test]
fn query_words_match_without_regard_to_case() {
    let re = compile_query_word_regex("foo.  BAR").unwrap();
    let found: Vec<&str> = re.find_iter("Foo. foox bar").map(|m| m.as_str()).collect();
    assert_eq!(found, vec!["Foo.", "bar"]);
    assert!(compile_query_word_regex("  ").is_none());
}

#[test]
fn rankings_are_stable_and_limited() {
    let keys = vec![3, 9, 3, -1, 9];
    assert_eq!(top_ranked(&keys, 4), vec![1, 4, 0, 2]);
    assert_eq!(top_ranked(&keys, 0), Vec::<usize>::new());
    assert_eq!(top_ranked(&keys, 10), vec![1, 4, 0, 2, 3]);
}

#[test]
fn query_words_are_taken_literally() {
    let re = compile_query_word_regex("a-b \\.+*?()|[]{}^$#&-~ c%").unwrap();
    assert_eq!(
        re.as_str(),
        "(?i)a\\-b|\\\\\\.\\+\\*\\?\\(\\)\\|\\[\\]\\{\\}\\^\\$\\#\\&\\-\\~|c%"
    );
}
