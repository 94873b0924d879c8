//! Front matter and body of notes.
use obsidian_vault::error::VaultError;
use obsidian_vault::frontmatter::{
    extract_aliases, extract_frontmatter_tags, extract_raw_frontmatter, get_body,
    parse_frontmatter, rebuild_content, remove_frontmatter_field, set_frontmatter_field,
};

fn json(text: &str) -> serde_json::Value {
    serde_json::from_str(text).unwrap()
}

// ── extract_raw_frontmatter ──────────────────────────────────────

#[test]
fn extract_no_frontmatter() {
    assert!(extract_raw_frontmatter("# Just a heading\n").is_none());
}

#[test]
fn extract_empty_frontmatter() {
    let content = "---\n---\n";
    let (yaml, body_start) = extract_raw_frontmatter(content).unwrap();
    assert_eq!(yaml, "");
    assert_eq!(&content[body_start..], "");
}

#[test]
fn extract_empty_frontmatter_with_body() {
    let content = "---\n---\nbody";
    let (yaml, body_start) = extract_raw_frontmatter(content).unwrap();
    assert_eq!(yaml, "");
    assert_eq!(&content[body_start..], "body");
}

#[test]
fn extract_standard_frontmatter() {
    let content = "---\ntags: [a, b]\ntitle: Hello\n---\n# Body\n";
    let (yaml, body_start) = extract_raw_frontmatter(content).unwrap();
    assert_eq!(yaml, "tags: [a, b]\ntitle: Hello\n");
    assert_eq!(&content[body_start..], "# Body\n");
}

#[test]
fn extract_frontmatter_only_no_trailing_newline() {
    let content = "---\ntags: [a]\n---";
    let (yaml, body_start) = extract_raw_frontmatter(content).unwrap();
    assert_eq!(yaml, "tags: [a]\n");
    assert_eq!(body_start, content.len());
    assert_eq!(&content[body_start..], "");
}

#[test]
fn extract_crlf_frontmatter() {
    let content = "---\r\ntags: [a]\r\n---\r\nbody";
    let (yaml, body_start) = extract_raw_frontmatter(content).unwrap();
    assert_eq!(yaml, "tags: [a]\r\n");
    assert_eq!(&content[body_start..], "body");
}

#[test]
fn extract_no_closing_delimiter() {
    assert!(extract_raw_frontmatter("---\ntags: [a]\n").is_none());
}

#[test]
fn extract_four_dashes_not_frontmatter() {
    assert!(extract_raw_frontmatter("----\ntags: [a]\n---\n").is_none());
}

#[test]
fn extract_delimiter_with_trailing_space_not_matched() {
    assert!(extract_raw_frontmatter("--- \ntags: [a]\n---\n").is_none());
}

#[test]
fn extract_hr_in_body_not_confused() {
    let content = "---\ntitle: Test\n---\nSome text\n\n---\n\nMore text\n";
    let (yaml, body_start) = extract_raw_frontmatter(content).unwrap();
    assert_eq!(yaml, "title: Test\n");
    assert_eq!(&content[body_start..], "Some text\n\n---\n\nMore text\n");
}

// ── get_body ─────────────────────────────────────────────────────

#[test]
fn body_with_frontmatter() {
    assert_eq!(get_body("---\na: 1\n---\nbody"), "body");
}

#[test]
fn body_without_frontmatter() {
    assert_eq!(get_body("just text"), "just text");
}

#[test]
fn body_empty_after_frontmatter() {
    assert_eq!(get_body("---\na: 1\n---\n"), "");
}

// ── parse_frontmatter ────────────────────────────────────────────

#[test]
fn parse_no_frontmatter() {
    assert_eq!(parse_frontmatter("# Title").unwrap(), None);
}

#[test]
fn parse_empty_frontmatter() {
    let result = parse_frontmatter("---\n---\n").unwrap().unwrap();
    assert_eq!(result, json(r#"{}"#));
}

#[test]
fn parse_standard_frontmatter() {
    let content = "---\ntags:\n  - rust\n  - mcp\ntitle: Hello\n---\nbody";
    let fm = parse_frontmatter(content).unwrap().unwrap();
    assert_eq!(fm["tags"], json(r#"["rust", "mcp"]"#));
    assert_eq!(fm["title"], json(r#""Hello""#));
}

#[test]
fn parse_various_value_types() {
    let content = "---\ncount: 42\nactive: true\ntags: [a, b]\n---\n";
    let fm = parse_frontmatter(content).unwrap().unwrap();
    assert_eq!(fm["count"], json(r#"42"#));
    assert_eq!(fm["active"], json(r#"true"#));
    assert_eq!(fm["tags"], json(r#"["a", "b"]"#));
}

#[test]
fn parse_malformed_yaml() {
    let content = "---\n[invalid yaml\n---\nbody";
    assert!(parse_frontmatter(content).is_err());
}

#[test]
fn parse_non_mapping_yaml_array() {
    let content = "---\n- a\n- b\n---\nbody";
    match parse_frontmatter(content) {
        Err(VaultError::Other(message)) => assert!(message.contains("array")),
        other => panic!("unexpected: {other:?}"),
    }
}

#[test]
fn parse_non_mapping_yaml_scalar() {
    let content = "---\njust a string\n---\nbody";
    match parse_frontmatter(content) {
        Err(VaultError::Other(message)) => assert!(message.contains("string")),
        other => panic!("unexpected: {other:?}"),
    }
}

// ── extract_frontmatter_tags ─────────────────────────────────────

#[test]
fn tags_from_array() {
    let fm = json(r#"{"tags": ["rust", "mcp"]}"#);
    assert_eq!(extract_frontmatter_tags(&fm), vec!["rust", "mcp"]);
}

#[test]
fn tags_from_comma_string() {
    let fm = json(r#"{"tags": "rust, mcp, tools"}"#);
    assert_eq!(extract_frontmatter_tags(&fm), vec!["rust", "mcp", "tools"]);
}

#[test]
fn tags_missing_key() {
    let fm = json(r#"{"title": "Hello"}"#);
    assert!(extract_frontmatter_tags(&fm).is_empty());
}

#[test]
fn tags_with_non_string_elements() {
    let fm = json(r#"{"tags": [42, "rust", true, null]}"#);
    let tags = extract_frontmatter_tags(&fm);
    assert_eq!(tags, vec!["42", "rust", "true"]);
}

// ── extract_aliases ──────────────────────────────────────────────

#[test]
fn aliases_from_array() {
    let fm = json(r#"{"aliases": ["server", "mcp-server"]}"#);
    assert_eq!(extract_aliases(&fm), vec!["server", "mcp-server"]);
}

#[test]
fn aliases_from_comma_string() {
    let fm = json(r#"{"aliases": "server, mcp-server"}"#);
    assert_eq!(extract_aliases(&fm), vec!["server", "mcp-server"]);
}

#[test]
fn aliases_missing() {
    assert!(extract_aliases(&json(r#"{}"#)).is_empty());
}

// ── set_frontmatter_field ────────────────────────────────────────

#[test]
fn set_field_in_existing_frontmatter() {
    let content = "---\ntags:\n- a\n---\nbody";
    let result = set_frontmatter_field(content, "title", json(r#""Hello""#)).unwrap();
    let fm = parse_frontmatter(&result).unwrap().unwrap();
    assert_eq!(fm["title"], json(r#""Hello""#));
    assert_eq!(fm["tags"], json(r#"["a"]"#));
    assert_eq!(get_body(&result), "body");
}

#[test]
fn set_field_creates_frontmatter() {
    let content = "just body";
    let result = set_frontmatter_field(content, "title", json(r#""Hello""#)).unwrap();
    let fm = parse_frontmatter(&result).unwrap().unwrap();
    assert_eq!(fm["title"], json(r#""Hello""#));
    assert_eq!(get_body(&result), "just body");
}

#[test]
fn set_field_overwrites_existing() {
    let content = "---\ntitle: Old\n---\nbody";
    let result = set_frontmatter_field(content, "title", json(r#""New""#)).unwrap();
    let fm = parse_frontmatter(&result).unwrap().unwrap();
    assert_eq!(fm["title"], json(r#""New""#));
}

// ── remove_frontmatter_field ─────────────────────────────────────

#[test]
fn remove_existing_field() {
    let content = "---\ntags:\n- a\ntitle: Hello\n---\nbody";
    let result = remove_frontmatter_field(content, "tags").unwrap();
    let fm = parse_frontmatter(&result).unwrap().unwrap();
    assert!(fm.get("tags").is_none());
    assert_eq!(fm["title"], json(r#""Hello""#));
    assert_eq!(get_body(&result), "body");
}

#[test]
fn remove_nonexistent_field() {
    let content = "---\ntags:\n- a\n---\nbody";
    let result = remove_frontmatter_field(content, "missing").unwrap();
    assert_eq!(result, content);
}

#[test]
fn remove_last_field_strips_frontmatter() {
    let content = "---\ntags:\n- a\n---\nbody";
    let result = remove_frontmatter_field(content, "tags").unwrap();
    assert_eq!(result, "body");
    assert!(parse_frontmatter(&result).unwrap().is_none());
}

#[test]
fn remove_from_no_frontmatter() {
    let content = "just body";
    let result = remove_frontmatter_field(content, "tags").unwrap();
    assert_eq!(result, "just body");
}

// ── rebuild_content ──────────────────────────────────────────────

#[test]
fn rebuild_with_frontmatter() {
    let fm = json(r#"{"title": "Hello"}"#);
    let result = rebuild_content(Some(&fm), "body\n");
    assert!(result.starts_with("---\n"));
    assert!(result.ends_with("---\nbody\n"));
    assert!(result.contains("title:"));
}

#[test]
fn rebuild_no_frontmatter() {
    assert_eq!(rebuild_content(None, "body"), "body");
}

#[test]
fn rebuild_empty_frontmatter_returns_body() {
    assert_eq!(rebuild_content(Some(&json(r#"{}"#)), "body"), "body");
}

// ── roundtrip ────────────────────────────────────────────────────

#[test]
fn roundtrip_preserves_body_exactly() {
    let body = "\n# Heading\n\nSome text with **bold** and `code`.\n\n- list item\n";
    let content = format!("---\ntags:\n- rust\n---\n{body}");

    let fm = parse_frontmatter(&content).unwrap().unwrap();
    let rebuilt = rebuild_content(Some(&fm), get_body(&content));

    assert_eq!(get_body(&rebuilt), body);
}

#[test]
fn roundtrip_set_then_remove_restores_body() {
    let original = "just the body\nwith multiple lines\n";
    let with_field = set_frontmatter_field(original, "title", json(r#""Test""#)).unwrap();
    let restored = remove_frontmatter_field(&with_field, "title").unwrap();
    assert_eq!(restored, original);
}
