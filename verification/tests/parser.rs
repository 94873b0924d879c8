//! What is read from Markdown.
use obsidian_vault::parser::{
    build_document_map, extract_block_refs, extract_headings, extract_inline_tags,
    extract_wikilinks, find_block_ref_range, find_heading_range,
};

// ── extract_headings ─────────────────────────────────────────────

#[test]
fn headings_basic() {
    let content = "# Title\n\nSome text.\n\n## Section\n\nMore text.\n\n### Sub\n";
    let h = extract_headings(content);

    assert_eq!(h.len(), 3);
    assert_eq!(h[0].level, 1);
    assert_eq!(h[0].text, "Title");
    assert_eq!(h[0].line, 0);
    assert_eq!(h[1].level, 2);
    assert_eq!(h[1].text, "Section");
    assert_eq!(h[2].level, 3);
    assert_eq!(h[2].text, "Sub");
}

#[test]
fn headings_with_inline_code() {
    let content = "# The `foo` method\n";
    let h = extract_headings(content);

    assert_eq!(h.len(), 1);
    assert_eq!(h[0].text, "The foo method");
}

#[test]
fn headings_with_frontmatter() {
    let content = "---\ntitle: Hello\n---\n\n# Real Heading\n";
    let h = extract_headings(content);

    assert_eq!(h.len(), 1);
    assert_eq!(h[0].text, "Real Heading");
}

#[test]
fn headings_empty_content() {
    assert!(extract_headings("").is_empty());
    assert!(extract_headings("No headings here.").is_empty());
}

// ── extract_wikilinks ────────────────────────────────────────────

#[test]
fn wikilink_simple() {
    let content = "See [[note]] for details.";
    let links = extract_wikilinks(content);

    assert_eq!(links.len(), 1);
    assert_eq!(links[0].raw, "[[note]]");
    assert_eq!(links[0].target, "note");
    assert!(links[0].heading.is_none());
    assert!(links[0].block_ref.is_none());
    assert!(links[0].alias.is_none());
}

#[test]
fn wikilink_with_alias() {
    let links = extract_wikilinks("Check [[note|display text]].");
    assert_eq!(links.len(), 1);
    assert_eq!(links[0].target, "note");
    assert_eq!(links[0].alias.as_deref(), Some("display text"));
}

#[test]
fn wikilink_with_heading() {
    let links = extract_wikilinks("Go to [[note#section]].");
    assert_eq!(links.len(), 1);
    assert_eq!(links[0].target, "note");
    assert_eq!(links[0].heading.as_deref(), Some("section"));
}

#[test]
fn wikilink_with_block_ref() {
    let links = extract_wikilinks("See [[note#^abc123]].");
    assert_eq!(links.len(), 1);
    assert_eq!(links[0].target, "note");
    assert_eq!(links[0].block_ref.as_deref(), Some("abc123"));
    assert!(links[0].heading.is_none());
}

#[test]
fn wikilink_self_reference() {
    let links = extract_wikilinks("Jump to [[#heading]].");
    assert_eq!(links.len(), 1);
    assert_eq!(links[0].target, "");
    assert_eq!(links[0].heading.as_deref(), Some("heading"));
}

#[test]
fn wikilink_with_path() {
    let links = extract_wikilinks("[[folder/subfolder/note]]");
    assert_eq!(links.len(), 1);
    assert_eq!(links[0].target, "folder/subfolder/note");
}

#[test]
fn wikilink_heading_and_alias() {
    let links = extract_wikilinks("[[note#heading|alias]]");
    assert_eq!(links.len(), 1);
    assert_eq!(links[0].target, "note");
    assert_eq!(links[0].heading.as_deref(), Some("heading"));
    assert_eq!(links[0].alias.as_deref(), Some("alias"));
}

#[test]
fn wikilink_in_code_block_excluded() {
    let content = "Real [[link]]\n\n```\n[[not-a-link]]\n```\n";
    let links = extract_wikilinks(content);

    assert_eq!(links.len(), 1);
    assert_eq!(links[0].target, "link");
}

#[test]
fn wikilink_in_inline_code_excluded() {
    let content = "Real [[link]] and `[[not-a-link]]` here.";
    let links = extract_wikilinks(content);

    assert_eq!(links.len(), 1);
    assert_eq!(links[0].target, "link");
}

#[test]
fn wikilinks_line_numbers() {
    let content = "[[a]]\ntext\n[[b]]\n";
    let links = extract_wikilinks(content);

    assert_eq!(links.len(), 2);
    assert_eq!(links[0].line, 0);
    assert_eq!(links[1].line, 2);
}

// ── extract_inline_tags ──────────────────────────────────────────

#[test]
fn tags_basic() {
    let content = "Some #rust and #mcp tags.";
    let tags = extract_inline_tags(content);

    assert_eq!(tags, vec!["mcp", "rust"]);
}

#[test]
fn tags_nested() {
    let content = "Tagged #lang/rust here.";
    let tags = extract_inline_tags(content);

    assert_eq!(tags, vec!["lang/rust"]);
}

#[test]
fn tags_at_line_start() {
    let content = "#tag at start\n#another at start";
    let tags = extract_inline_tags(content);

    assert_eq!(tags, vec!["another", "tag"]);
}

#[test]
fn tags_skip_code_block() {
    let content = "#real\n\n```\n#not-a-tag\n```\n\n#also-real\n";
    let tags = extract_inline_tags(content);

    assert_eq!(tags, vec!["also-real", "real"]);
}

#[test]
fn tags_skip_inline_code() {
    let content = "#real and `#fake` here.";
    let tags = extract_inline_tags(content);

    assert_eq!(tags, vec!["real"]);
}

#[test]
fn tags_numeric_rejected() {
    let content = "Issue #123 is not a tag.";
    let tags = extract_inline_tags(content);

    assert!(tags.is_empty());
}

#[test]
fn tags_deduplicated() {
    let content = "#rust is great. #rust again.";
    let tags = extract_inline_tags(content);

    assert_eq!(tags, vec!["rust"]);
}

#[test]
fn tags_not_from_heading_markers() {
    let content = "# Heading\n\n## Another Heading\n";
    let tags = extract_inline_tags(content);

    assert!(tags.is_empty());
}

#[test]
fn tags_skip_frontmatter() {
    let content = "---\ntags: [rust]\n---\n\n#visible\n";
    let tags = extract_inline_tags(content);

    assert_eq!(tags, vec!["visible"]);
}

// ── extract_block_refs ───────────────────────────────────────────

#[test]
fn block_refs_basic() {
    let content = "Some text ^abc123\nMore text ^def456\n";
    let refs = extract_block_refs(content);

    assert_eq!(refs, vec!["abc123", "def456"]);
}

#[test]
fn block_refs_with_trailing_whitespace() {
    let content = "Text ^myref   \n";
    let refs = extract_block_refs(content);

    assert_eq!(refs, vec!["myref"]);
}

#[test]
fn block_refs_standalone() {
    let content = "^standalone\n";
    let refs = extract_block_refs(content);

    assert_eq!(refs, vec!["standalone"]);
}

#[test]
fn block_refs_with_dashes() {
    let content = "Line ^my-block-ref\n";
    let refs = extract_block_refs(content);

    assert_eq!(refs, vec!["my-block-ref"]);
}

#[test]
fn block_refs_empty_content() {
    assert!(extract_block_refs("").is_empty());
    assert!(extract_block_refs("no refs here").is_empty());
}

// ── find_heading_range ──────────────────────────────────────────

#[test]
fn heading_range_simple() {
    let content = "# Intro\n\nText here.\n\n# Next\n\nMore.\n";
    let range = find_heading_range(content, "Intro", "::");

    assert!(range.is_some());
    let (start, end) = range.unwrap();
    let section = &content[start..end];
    assert!(section.starts_with("# Intro"));
    assert!(!section.contains("# Next"));
}

#[test]
fn heading_range_nested() {
    let content = "\
# A
## B
Some B content.
## C
Some C content.
# D
";
    let range = find_heading_range(content, "A::B", "::");

    assert!(range.is_some());
    let (start, end) = range.unwrap();
    let section = &content[start..end];
    assert!(section.starts_with("## B"));
    assert!(section.contains("Some B content."));
    assert!(!section.contains("## C"));
}

#[test]
fn heading_range_to_eof() {
    let content = "# Only\n\nContent until end.";
    let range = find_heading_range(content, "Only", "::");

    assert!(range.is_some());
    let (start, end) = range.unwrap();
    assert_eq!(start, 0);
    assert_eq!(end, content.len());
}

#[test]
fn heading_range_not_found() {
    let content = "# Exists\n\nContent.";
    assert!(find_heading_range(content, "Missing", "::").is_none());
}

#[test]
fn heading_range_custom_delimiter() {
    let content = "# A\n## B\nContent.\n# C\n";
    let range = find_heading_range(content, "A/B", "/");

    assert!(range.is_some());
    let (start, end) = range.unwrap();
    let section = &content[start..end];
    assert!(section.starts_with("## B"));
}

// ── find_block_ref_range ────────────────────────────────────────

#[test]
fn block_ref_range_found() {
    let content = "First line\nImportant text ^myref\nThird line\n";
    let range = find_block_ref_range(content, "myref");

    assert!(range.is_some());
    let (start, end) = range.unwrap();
    let line = &content[start..end];
    assert!(line.contains("Important text"));
    assert!(line.contains("^myref"));
}

#[test]
fn block_ref_range_not_found() {
    let content = "No block refs here.\n";
    assert!(find_block_ref_range(content, "missing").is_none());
}

#[test]
fn block_ref_range_standalone() {
    let content = "Line above\n^solo\nLine below\n";
    let range = find_block_ref_range(content, "solo");

    assert!(range.is_some());
    let (start, end) = range.unwrap();
    assert_eq!(&content[start..end], "^solo");
}

// ── build_document_map ──────────────────────────────────────────

#[test]
fn document_map_full() {
    let content = "\
---
tags: [rust]
date: 2026-03-19
---

# Introduction

Some text ^ref1

## Details

More text ^ref2
";
    let map = build_document_map(content);

    assert_eq!(map.headings, vec!["# Introduction", "## Details"]);
    assert_eq!(map.block_refs, vec!["ref1", "ref2"]);
    assert!(map.frontmatter_fields.contains(&"tags".to_string()));
    assert!(map.frontmatter_fields.contains(&"date".to_string()));
}

#[test]
fn document_map_no_frontmatter() {
    let content = "# Just a heading\n\nBody text.\n";
    let map = build_document_map(content);

    assert_eq!(map.headings, vec!["# Just a heading"]);
    assert!(map.block_refs.is_empty());
    assert!(map.frontmatter_fields.is_empty());
}

#[test]
fn document_map_empty() {
    let map = build_document_map("");

    assert!(map.headings.is_empty());
    assert!(map.block_refs.is_empty());
    assert!(map.frontmatter_fields.is_empty());
}

// ── edge cases ──────────────────────────────────────────────────

#[test]
fn empty_content_all_extractors() {
    let content = "";
    assert!(extract_headings(content).is_empty());
    assert!(extract_inline_tags(content).is_empty());
    assert!(extract_wikilinks(content).is_empty());
    assert!(extract_block_refs(content).is_empty());
}

#[test]
fn code_block_only_content() {
    let content = "```\n# not heading\n[[not-link]]\n#not-tag\n^not-ref\n```\n";
    assert!(extract_headings(content).is_empty());
    assert!(extract_wikilinks(content).is_empty());
    assert!(extract_inline_tags(content).is_empty());
    assert!(extract_block_refs(content).is_empty());
}

#[test]
fn block_refs_skip_code_block() {
    let content = "Real text ^real-ref\n\n```\n^fake-ref\n```\n\nAnother ^also-real\n";
    let refs = extract_block_refs(content);
    assert_eq!(refs, vec!["real-ref", "also-real"]);
}

#[test]
fn heading_range_case_insensitive() {
    let content = "# My Title\n\nContent here.\n\n# Other\n";
    let range = find_heading_range(content, "my title", "::");
    assert!(range.is_some());
    let (start, _) = range.unwrap();
    assert_eq!(start, 0);
}

#[test]
fn block_ref_range_ends_with_its_line() {
    assert_eq!(find_block_ref_range("A ^r\n\nB\n", "r"), Some((0, 4)));
    assert_eq!(find_block_ref_range("A ^r \t\n\nB\n", "r"), Some((0, 6)));
}
