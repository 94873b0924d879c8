//! Documents and queries of the full-text index.
use obsidian_vault::models::{FileStat, Heading, NoteMetadata, SearchField};
use obsidian_vault::tantivy_index::{
    boost_of, build_document, plan_search, stringify_frontmatter, SearchPlan, TITLE_BOOST,
};

fn json(text: &str) -> serde_json::Value {
    serde_json::from_str(text).unwrap()
}

#[test]
fn stringify_frontmatter_extracts_text() {
    let fm = json(r#"{"tags": ["rust", "mcp"], "status": "draft", "priority": 1}"#);
    let text = stringify_frontmatter(&fm);
    assert!(text.contains("rust"));
    assert!(text.contains("mcp"));
    assert!(text.contains("draft"));
    assert!(text.contains("1"));
}

#[test]
fn front_matter_is_flattened_in_key_order() {
    let fm = json(r#"{"z": null, "b": [true, {"x": -2.5}], "a": "s"}"#);
    assert_eq!(stringify_frontmatter(&fm), "a s b true x -2.5 z");
    assert_eq!(stringify_frontmatter(&json("null")), "");
}

#[test]
fn documents_hold_all_fields() {
    let meta = NoteMetadata {
        path: "p/n.md".to_string(),
        title: "n".to_string(),
        tags: vec!["lang/rust".to_string(), "x".to_string()],
        frontmatter: Some(json(r#"{"k": 7}"#)),
        headings: vec![
            Heading { level: 1, text: "A".to_string(), line: 0 },
            Heading { level: 2, text: "B".to_string(), line: 1 },
        ],
        links: vec![],
        block_refs: vec![],
        stat: FileStat { size: 0, created: None, modified: None },
    };
    let doc = build_document("p/n.md", &meta, "---\nk: 7\n---\nbody\n");
    assert_eq!(doc.path, "p/n.md");
    assert_eq!(doc.title, "n");
    assert_eq!(doc.headings, "A | B");
    assert_eq!(doc.body, "body\n");
    assert_eq!(doc.frontmatter_text, "k 7");
    assert_eq!(doc.tags, vec![vec!["lang", "rust"], vec!["x"]]);
}

#[test]
fn plans_without_fields_look_in_all_texts() {
    match plan_search("rust", false, None) {
        SearchPlan::Look { fields, fuzzy, tags } => {
            assert_eq!(
                fields,
                vec![
                    SearchField::Title,
                    SearchField::Headings,
                    SearchField::Body,
                    SearchField::Frontmatter
                ]
            );
            assert!(!fuzzy);
            assert!(tags.is_empty());
        }
        other => panic!("unexpected: {other:?}"),
    }
}

#[test]
fn plans_with_tags_look_for_each_word() {
    let fields = vec![SearchField::Tags, SearchField::Body];
    match plan_search("a/b c", true, Some(&fields)) {
        SearchPlan::Look { fields, fuzzy, tags } => {
            assert_eq!(fields, vec![SearchField::Body]);
            assert!(fuzzy);
            assert_eq!(tags, vec![vec!["a", "b"], vec!["c"]]);
        }
        other => panic!("unexpected: {other:?}"),
    }
}

#[test]
fn empty_queries_look_for_nothing() {
    assert!(matches!(plan_search("", true, None), SearchPlan::Nothing));
    assert!(matches!(plan_search("x", false, Some(&vec![])), SearchPlan::Nothing));
    let tags = vec![SearchField::Tags];
    assert!(matches!(plan_search("  ", false, Some(&tags)), SearchPlan::Nothing));
}

#[test]
fn boosts() {
    assert_eq!(boost_of(SearchField::Title), TITLE_BOOST);
    assert_eq!(boost_of(SearchField::Headings), 3);
    assert_eq!(boost_of(SearchField::Body), 1);
    assert_eq!(boost_of(SearchField::Tags), 4);
    assert_eq!(boost_of(SearchField::Frontmatter), 2);
}
