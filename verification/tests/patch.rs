//! Patches of single parts of a note.
use obsidian_vault::error::VaultError;
use obsidian_vault::models::{PatchOperation, PatchRequest, PatchTargetType};
use obsidian_vault::patch::{
    apply_patch, find_block_ref_line, find_headings, frontmatter_boundaries,
};

fn req(op: PatchOperation, tt: PatchTargetType, target: &str, content: &str) -> PatchRequest {
    PatchRequest {
        operation: op,
        target_type: tt,
        target: target.into(),
        content: content.into(),
    }
}

fn p() -> &'static str {
    "test.md"
}

const SAMPLE: &str = "\
---
tags:
  - rust
  - mcp
title: Test Note
---
# Introduction
This is the intro.

## Details
Some details here.
Important detail ^block1

### Sub Details
Sub detail content ^block2

## Summary
Summary text.

# Conclusion
Final thoughts.
";

// ---- Heading: prepend ----

#[test]
fn heading_prepend() {
    let r = req(
        PatchOperation::Prepend,
        PatchTargetType::Heading,
        "Introduction",
        "Prepended line.",
    );
    let result = apply_patch(SAMPLE, &r, p()).unwrap();
    let lines: Vec<&str> = result.lines().collect();
    let idx = lines.iter().position(|l| *l == "# Introduction").unwrap();
    assert_eq!(lines[idx + 1], "Prepended line.");
    assert_eq!(lines[idx + 2], "This is the intro.");
}

// ---- Heading: append ----

#[test]
fn heading_append() {
    let r = req(
        PatchOperation::Append,
        PatchTargetType::Heading,
        "Details",
        "Appended to details.",
    );
    let result = apply_patch(SAMPLE, &r, p()).unwrap();
    let lines: Vec<&str> = result.lines().collect();
    let summary_idx = lines.iter().position(|l| *l == "## Summary").unwrap();
    assert_eq!(lines[summary_idx - 1], "Appended to details.");
}

// ---- Heading: replace ----

#[test]
fn heading_replace() {
    let r = req(
        PatchOperation::Replace,
        PatchTargetType::Heading,
        "Summary",
        "New summary content.",
    );
    let result = apply_patch(SAMPLE, &r, p()).unwrap();
    let lines: Vec<&str> = result.lines().collect();
    let idx = lines.iter().position(|l| *l == "## Summary").unwrap();
    assert_eq!(lines[idx + 1], "New summary content.");
    assert!(!result.contains("Summary text."));
    assert!(result.contains("# Conclusion"));
}

// ---- Heading: nested path ----

#[test]
fn heading_nested_path() {
    let r = req(
        PatchOperation::Prepend,
        PatchTargetType::Heading,
        "Introduction::Details",
        "Nested prepend.",
    );
    let result = apply_patch(SAMPLE, &r, p()).unwrap();
    let lines: Vec<&str> = result.lines().collect();
    let idx = lines.iter().position(|l| *l == "## Details").unwrap();
    assert_eq!(lines[idx + 1], "Nested prepend.");
}

#[test]
fn heading_deeply_nested() {
    let r = req(
        PatchOperation::Replace,
        PatchTargetType::Heading,
        "Introduction::Details::Sub Details",
        "Replaced sub content.",
    );
    let result = apply_patch(SAMPLE, &r, p()).unwrap();
    assert!(result.contains("Replaced sub content."));
    assert!(!result.contains("Sub detail content ^block2"));
    assert!(result.contains("## Summary"));
}

// ---- Heading: missing ----

#[test]
fn heading_missing() {
    let r = req(
        PatchOperation::Append,
        PatchTargetType::Heading,
        "Nonexistent",
        "content",
    );
    let err = apply_patch(SAMPLE, &r, p()).unwrap_err();
    match err {
        VaultError::PatchTargetNotFound { target, .. } => {
            assert_eq!(target, "Nonexistent");
        }
        other => panic!("Expected PatchTargetNotFound, got {other:?}"),
    }
}

// ---- Block: prepend ----

#[test]
fn block_prepend() {
    let r = req(
        PatchOperation::Prepend,
        PatchTargetType::Block,
        "block1",
        "Before block.",
    );
    let result = apply_patch(SAMPLE, &r, p()).unwrap();
    let lines: Vec<&str> = result.lines().collect();
    let idx = lines.iter().position(|l| l.contains("^block1")).unwrap();
    assert_eq!(lines[idx - 1], "Before block.");
}

// ---- Block: append ----

#[test]
fn block_append() {
    let r = req(
        PatchOperation::Append,
        PatchTargetType::Block,
        "block1",
        "After block.",
    );
    let result = apply_patch(SAMPLE, &r, p()).unwrap();
    let lines: Vec<&str> = result.lines().collect();
    let idx = lines.iter().position(|l| l.contains("^block1")).unwrap();
    assert_eq!(lines[idx + 1], "After block.");
}

// ---- Block: replace ----

#[test]
fn block_replace() {
    let r = req(
        PatchOperation::Replace,
        PatchTargetType::Block,
        "block1",
        "New block text",
    );
    let result = apply_patch(SAMPLE, &r, p()).unwrap();
    assert!(result.contains("New block text ^block1"));
    assert!(!result.contains("Important detail ^block1"));
}

#[test]
fn block_with_caret_prefix() {
    let r = req(
        PatchOperation::Append,
        PatchTargetType::Block,
        "^block2",
        "After block2.",
    );
    let result = apply_patch(SAMPLE, &r, p()).unwrap();
    let lines: Vec<&str> = result.lines().collect();
    let idx = lines.iter().position(|l| l.contains("^block2")).unwrap();
    assert_eq!(lines[idx + 1], "After block2.");
}

#[test]
fn block_missing() {
    let r = req(
        PatchOperation::Append,
        PatchTargetType::Block,
        "nonexistent",
        "content",
    );
    assert!(matches!(
        apply_patch(SAMPLE, &r, p()),
        Err(VaultError::PatchTargetNotFound { .. })
    ));
}

// ---- Block: standalone ref ----

#[test]
fn block_ref_standalone_replace() {
    let content = "First line\n^solo\nLast line\n";
    let r = req(
        PatchOperation::Replace,
        PatchTargetType::Block,
        "solo",
        "Replaced",
    );
    let result = apply_patch(content, &r, p()).unwrap();
    assert!(result.contains("Replaced ^solo"));
    assert!(result.contains("First line"));
    assert!(result.contains("Last line"));
}

// ---- Frontmatter: replace ----

#[test]
fn frontmatter_replace() {
    let r = req(
        PatchOperation::Replace,
        PatchTargetType::Frontmatter,
        "title",
        "New Title",
    );
    let result = apply_patch(SAMPLE, &r, p()).unwrap();
    let fm = frontmatter_boundaries(&result).unwrap();
    let yaml: serde_yaml::Value =
        serde_yaml::from_str(&result[fm.yaml_start..fm.yaml_end]).unwrap();
    assert_eq!(yaml["title"].as_str().unwrap(), "New Title");
    assert!(result.contains("# Introduction"));
}

// ---- Frontmatter: append list ----

#[test]
fn frontmatter_append_list() {
    let r = req(
        PatchOperation::Append,
        PatchTargetType::Frontmatter,
        "tags",
        "obsidian",
    );
    let result = apply_patch(SAMPLE, &r, p()).unwrap();
    let fm = frontmatter_boundaries(&result).unwrap();
    let yaml: serde_yaml::Value =
        serde_yaml::from_str(&result[fm.yaml_start..fm.yaml_end]).unwrap();
    let tags = yaml["tags"].as_sequence().unwrap();
    let texts: Vec<&str> = tags.iter().filter_map(|v| v.as_str()).collect();
    assert!(texts.contains(&"rust"));
    assert!(texts.contains(&"mcp"));
    assert!(texts.contains(&"obsidian"));
    assert_eq!(*texts.last().unwrap(), "obsidian");
}

// ---- Frontmatter: prepend list ----

#[test]
fn frontmatter_prepend_list() {
    let r = req(
        PatchOperation::Prepend,
        PatchTargetType::Frontmatter,
        "tags",
        "first",
    );
    let result = apply_patch(SAMPLE, &r, p()).unwrap();
    let fm = frontmatter_boundaries(&result).unwrap();
    let yaml: serde_yaml::Value =
        serde_yaml::from_str(&result[fm.yaml_start..fm.yaml_end]).unwrap();
    let tags = yaml["tags"].as_sequence().unwrap();
    assert_eq!(tags[0].as_str().unwrap(), "first");
}

// ---- Frontmatter: append string ----

#[test]
fn frontmatter_append_string() {
    let r = req(
        PatchOperation::Append,
        PatchTargetType::Frontmatter,
        "title",
        " (v2)",
    );
    let result = apply_patch(SAMPLE, &r, p()).unwrap();
    let fm = frontmatter_boundaries(&result).unwrap();
    let yaml: serde_yaml::Value =
        serde_yaml::from_str(&result[fm.yaml_start..fm.yaml_end]).unwrap();
    assert_eq!(yaml["title"].as_str().unwrap(), "Test Note (v2)");
}

// ---- Frontmatter: prepend string ----

#[test]
fn frontmatter_prepend_string() {
    let r = req(
        PatchOperation::Prepend,
        PatchTargetType::Frontmatter,
        "title",
        "Prefix: ",
    );
    let result = apply_patch(SAMPLE, &r, p()).unwrap();
    let fm = frontmatter_boundaries(&result).unwrap();
    let yaml: serde_yaml::Value =
        serde_yaml::from_str(&result[fm.yaml_start..fm.yaml_end]).unwrap();
    assert_eq!(yaml["title"].as_str().unwrap(), "Prefix: Test Note");
}

// ---- Frontmatter: new field ----

#[test]
fn frontmatter_new_field() {
    let r = req(
        PatchOperation::Replace,
        PatchTargetType::Frontmatter,
        "status",
        "draft",
    );
    let result = apply_patch(SAMPLE, &r, p()).unwrap();
    let fm = frontmatter_boundaries(&result).unwrap();
    let yaml: serde_yaml::Value =
        serde_yaml::from_str(&result[fm.yaml_start..fm.yaml_end]).unwrap();
    assert_eq!(yaml["status"].as_str().unwrap(), "draft");
}

// ---- Frontmatter: missing block ----

#[test]
fn frontmatter_missing_block() {
    let content = "# No frontmatter\nJust content.\n";
    let r = req(
        PatchOperation::Replace,
        PatchTargetType::Frontmatter,
        "key",
        "value",
    );
    assert!(matches!(
        apply_patch(content, &r, p()),
        Err(VaultError::PatchTargetNotFound { .. })
    ));
}

// ---- Edge cases ----

#[test]
fn heading_inside_code_block_ignored() {
    let content = "# Real Heading\nSome text.\n```\n# Not A Heading\n```\n# After Code\n";
    let headings = find_headings(content);
    let texts: Vec<&str> = headings.iter().map(|h| h.text.as_str()).collect();
    assert_eq!(texts, vec!["Real Heading", "After Code"]);
}

#[test]
fn block_inside_code_block_ignored() {
    let content = "Start\n```\nfake ^block9\n```\nReal ^block9\n";
    assert_eq!(find_block_ref_line(content, "block9"), Some(4));
}

#[test]
fn content_preservation() {
    let r = req(
        PatchOperation::Prepend,
        PatchTargetType::Heading,
        "Conclusion",
        "Added.",
    );
    let result = apply_patch(SAMPLE, &r, p()).unwrap();
    assert!(result.contains("This is the intro."));
    assert!(result.contains("Some details here."));
    assert!(result.contains("Summary text."));
    assert!(result.contains("Important detail ^block1"));
}

#[test]
fn heading_at_end_of_file() {
    let content = "# Only Heading\n";
    let r = req(
        PatchOperation::Append,
        PatchTargetType::Heading,
        "Only Heading",
        "Content added.",
    );
    let result = apply_patch(content, &r, p()).unwrap();
    assert!(result.contains("# Only Heading"));
    assert!(result.contains("Content added."));
}

#[test]
fn heading_case_insensitive() {
    let content = "# My Heading\nBody text.\n";
    let r = req(
        PatchOperation::Append,
        PatchTargetType::Heading,
        "my heading",
        "Appended.",
    );
    let result = apply_patch(content, &r, p()).unwrap();
    assert!(result.contains("Appended."));
}

#[test]
fn frontmatter_body_preserved_exactly() {
    let content = "---\nkey: val\n---\nBody with special chars: *bold* [[link]] #tag\n";
    let r = req(
        PatchOperation::Replace,
        PatchTargetType::Frontmatter,
        "key",
        "new",
    );
    let result = apply_patch(content, &r, p()).unwrap();
    assert!(result.contains("Body with special chars: *bold* [[link]] #tag"));
}

#[test]
fn frontmatter_yaml_comment_not_heading() {
    let content = "---\n# yaml comment\nkey: val\n---\n# Real Heading\n";
    let headings = find_headings(content);
    assert_eq!(headings.len(), 1);
    assert_eq!(headings[0].text, "Real Heading");
}

#[test]
fn block_append_on_an_unterminated_line() {
    let r = req(PatchOperation::Append, PatchTargetType::Block, "r", "x");
    let once = apply_patch("A ^r", &r, p()).unwrap();
    assert_eq!(once, "A ^r\nx\n");
    let twice = apply_patch(&once, &r, p()).unwrap();
    assert_eq!(twice, "A ^r\nx\nx\n");
}
