//! Notes that are kept out of the index.
use obsidian_vault::error::VaultError;
use obsidian_vault::exclude::{load_ignore_patterns, parse_ignore_lines, ExcludeSet, GlobFilter};

// ── ExcludeSet::build — normalization ──

#[test]
fn build_normalizes_trailing_slash() {
    let set = ExcludeSet::build(vec!["Archive/".into()]).unwrap();
    assert_eq!(set.patterns().as_slice(), ["Archive/**"]);
}

#[test]
fn build_preserves_explicit_double_star() {
    let set = ExcludeSet::build(vec!["Archive/**".into()]).unwrap();
    assert_eq!(set.patterns().as_slice(), ["Archive/**"]);
}

#[test]
fn build_normalizes_nested_trailing_slash() {
    let set = ExcludeSet::build(vec!["**/drafts/".into()]).unwrap();
    assert_eq!(set.patterns().as_slice(), ["**/drafts/**"]);
}

#[test]
fn build_no_normalization_without_trailing_slash() {
    let set = ExcludeSet::build(vec!["*.tmp".into()]).unwrap();
    assert_eq!(set.patterns().as_slice(), ["*.tmp"]);
}

#[test]
fn build_skips_invalid_pattern() {
    let set = ExcludeSet::build(vec!["[invalid".into(), "valid/**".into()]).unwrap();
    assert_eq!(set.patterns().len(), 1);
    assert_eq!(set.patterns()[0], "valid/**");
}

#[test]
fn build_empty_input() {
    let set = ExcludeSet::build(vec![]).unwrap();
    assert!(set.is_empty());
    assert!(set.patterns().is_empty());
}

#[test]
fn build_all_invalid() {
    let set = ExcludeSet::build(vec!["[bad1".into(), "[bad2".into()]).unwrap();
    assert!(set.is_empty());
}

#[test]
fn build_trims_whitespace() {
    let set = ExcludeSet::build(vec!["  Archive/  ".into()]).unwrap();
    assert_eq!(set.patterns().as_slice(), ["Archive/**"]);
}

#[test]
fn build_skips_blank_entries() {
    let set = ExcludeSet::build(vec!["".into(), "  ".into(), "Archive/".into()]).unwrap();
    assert_eq!(set.patterns().len(), 1);
}

// ── ExcludeSet::is_excluded ──

#[test]
fn is_excluded_matches_file_in_excluded_dir() {
    let set = ExcludeSet::build(vec!["Archive/".into()]).unwrap();
    assert!(set.is_excluded("Archive/old-note.md"));
}

#[test]
fn is_excluded_matches_deeply_nested() {
    let set = ExcludeSet::build(vec!["Archive/".into()]).unwrap();
    assert!(set.is_excluded("Archive/sub/deep.md"));
}

#[test]
fn is_excluded_rejects_non_matching() {
    let set = ExcludeSet::build(vec!["Archive/".into()]).unwrap();
    assert!(!set.is_excluded("Active/note.md"));
}

#[test]
fn is_excluded_rejects_similar_name() {
    let set = ExcludeSet::build(vec!["Archive/".into()]).unwrap();
    assert!(!set.is_excluded("Archived-note.md"));
}

#[test]
fn is_excluded_empty_set_always_false() {
    let set = ExcludeSet::build(vec![]).unwrap();
    assert!(!set.is_excluded("anything.md"));
}

#[test]
fn is_excluded_wildcard_pattern() {
    let set = ExcludeSet::build(vec!["*.tmp".into()]).unwrap();
    assert!(set.is_excluded("scratch.tmp"));
    assert!(!set.is_excluded("note.md"));
}

#[test]
fn is_excluded_double_star_pattern() {
    let set = ExcludeSet::build(vec!["**/drafts/".into()]).unwrap();
    assert!(set.is_excluded("a/b/drafts/note.md"));
    assert!(set.is_excluded("drafts/note.md"));
}

#[test]
fn is_excluded_nested_dir_pattern() {
    let set = ExcludeSet::build(vec!["Resources/Meetings/".into()]).unwrap();
    assert!(set.is_excluded("Resources/Meetings/2024-01.md"));
    assert!(!set.is_excluded("Resources/Notes/note.md"));
}

// ── parse_ignore_lines ──

#[test]
fn parse_ignore_lines_strips_comments() {
    let result = parse_ignore_lines("# comment\nArchive/\n# another\n*.tmp");
    assert_eq!(result, vec!["Archive/", "*.tmp"]);
}

#[test]
fn parse_ignore_lines_strips_blank_lines() {
    let result = parse_ignore_lines("Archive/\n\n\n*.tmp");
    assert_eq!(result, vec!["Archive/", "*.tmp"]);
}

#[test]
fn parse_ignore_lines_trims_whitespace() {
    let result = parse_ignore_lines("  Archive/  \n  *.tmp  ");
    assert_eq!(result, vec!["Archive/", "*.tmp"]);
}

#[test]
fn parse_ignore_lines_hash_mid_line_not_comment() {
    let result = parse_ignore_lines("path#with#hashes");
    assert_eq!(result, vec!["path#with#hashes"]);
}

#[test]
fn parse_ignore_lines_indented_comment() {
    let result = parse_ignore_lines("  # indented comment\nArchive/");
    assert_eq!(result, vec!["Archive/"]);
}

#[test]
fn parse_ignore_lines_empty_input() {
    let result = parse_ignore_lines("");
    assert!(result.is_empty());
}

#[test]
fn parse_ignore_lines_only_comments_and_blanks() {
    let result = parse_ignore_lines("# comment\n\n# another\n  ");
    assert!(result.is_empty());
}

#[test]
fn parse_ignore_lines_mixed_content() {
    let input = "\
# Exclusion patterns for obsidian-mcp
# Last updated: 2026-05-29

Archive/
Resources/Meetings/

# Drafts at any depth
**/drafts/*.tmp
";
    let result = parse_ignore_lines(input);
    assert_eq!(
        result,
        vec!["Archive/", "Resources/Meetings/", "**/drafts/*.tmp"]
    );
}

// ── load_ignore_patterns ──

#[test]
fn load_ignore_patterns_single_location() {
    let result = load_ignore_patterns(Some("Archive/\n*.tmp\n"), None, &vec![]);
    assert_eq!(result, vec!["*.tmp", "Archive/"]);
}

#[test]
fn load_ignore_patterns_both_locations() {
    let result = load_ignore_patterns(Some("Archive/\n"), Some("Drafts/\n"), &vec![]);
    assert_eq!(result, vec!["Archive/", "Drafts/"]);
}

#[test]
fn load_ignore_patterns_dedup() {
    let result = load_ignore_patterns(
        Some("Archive/\nDrafts/\n"),
        Some("Archive/\nMeetings/\n"),
        &vec![],
    );
    assert_eq!(result, vec!["Archive/", "Drafts/", "Meetings/"]);
}

#[test]
fn load_ignore_patterns_missing_files() {
    let result = load_ignore_patterns(None, None, &vec![]);
    assert!(result.is_empty());
}

#[test]
fn load_ignore_patterns_same_path_no_duplicates() {
    let content = "Archive/\nDrafts/\n";
    let result = load_ignore_patterns(Some(content), Some(content), &vec![]);
    assert_eq!(result, vec!["Archive/", "Drafts/"]);
}

#[test]
fn load_ignore_patterns_one_missing_one_present() {
    let result = load_ignore_patterns(None, Some("External/\n"), &vec![]);
    assert_eq!(result, vec!["External/"]);
}

#[test]
fn settings_are_merged_with_ignore_files() {
    let extra = vec!["Drafts/".to_string(), "*.tmp".to_string()];
    let result = load_ignore_patterns(Some("Archive/\n# no\nDrafts/\n"), None, &extra);
    assert_eq!(result, vec!["*.tmp", "Archive/", "Drafts/"]);
}

#[test]
fn glob_filter_matches_and_refuses() {
    let filter = GlobFilter::new("**/*.md").unwrap();
    assert!(filter.is_match("a/b.md"));
    assert!(!filter.is_match("a/b.txt"));
    assert!(matches!(GlobFilter::new("[bad"), Err(VaultError::InvalidPath(_))));
}
