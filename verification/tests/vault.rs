//! Whole vaults, with their files in memory.
use obsidian_vault::embeddings::embedding_cache_path;
use obsidian_vault::error::VaultError;
use obsidian_vault::frontmatter::{
    parse_frontmatter, remove_frontmatter_field, set_frontmatter_field,
};
use obsidian_vault::index::{NoteFile, ScannedFile};
use obsidian_vault::models::{
    DocumentMap, FileStat, FollowUp, NoteMetadata, NotePeriod, PatchOperation, PatchRequest,
    PatchTargetType, PeriodicNoteConfig, SearchResult,
};
use obsidian_vault::parser::build_document_map;
use obsidian_vault::patch::apply_patch;
use obsidian_vault::periodic::{
    list_recent_periodic_notes, read_periodic_config, try_periodic_note_path, CoreDailyNotesConfig,
    Date,
};
use obsidian_vault::search_utils::compile_query_word_regex;
use obsidian_vault::table::Table;
use obsidian_vault::vault::{
    check_semantic, copies_old_cache, create_note, create_periodic_note, first_results,
    mcp_data_path, mcp_home_path, plan_hybrid, prepend_note, template_to_read, word_matches,
    Vault,
};

fn json(text: &str) -> serde_json::Value {
    serde_json::from_str(text).unwrap()
}

fn note(content: &str) -> NoteFile {
    NoteFile {
        content: content.to_string(),
        stat: FileStat { size: content.len() as u64, created: None, modified: None },
    }
}

/// A vault with its files.
struct Place {
    files: Vec<(String, String)>,
    vault: Vault,
}

impl Place {
    fn open_with(entries: &[(&str, &str)], ignore: Option<&str>, patterns: &[&str]) -> Place {
        let files: Vec<(String, String)> =
            entries.iter().map(|(p, c)| (p.to_string(), c.to_string())).collect();
        let scanned: Vec<ScannedFile> = files
            .iter()
            .map(|(p, c)| ScannedFile {
                path: p.clone(),
                size: Some(c.len() as u64),
                note: Some(note(c)),
            })
            .collect();
        let patterns: Vec<String> = patterns.iter().map(|p| p.to_string()).collect();
        let home = mcp_home_path("/v");
        let vault = Vault::open("/v", home, ignore, None, &patterns, &scanned).unwrap();
        Place { files, vault }
    }

    fn open(entries: &[(&str, &str)]) -> Place {
        Place::open_with(entries, None, &[])
    }

    fn read(&self, path: &str) -> Result<String, VaultError> {
        match self.files.iter().find(|(p, _)| p == path) {
            Some((_, c)) => Ok(c.clone()),
            None => Err(VaultError::NoteNotFound(path.to_string())),
        }
    }

    fn write(&mut self, path: &str, content: &str) -> FollowUp {
        self.files.retain(|(p, _)| p != path);
        self.files.push((path.to_string(), content.to_string()));
        self.vault.reindex(path, Ok(note(content))).unwrap()
    }

    fn delete(&mut self, path: &str) -> FollowUp {
        self.files.retain(|(p, _)| p != path);
        self.vault.delete_note(path)
    }

    fn rename(&mut self, from: &str, to: &str) -> Option<String> {
        let content = self.read(from).unwrap();
        self.files.retain(|(p, _)| p != from);
        self.files.push((to.to_string(), content.clone()));
        let follow = self.vault.move_note(from, to, Ok(note(&content))).unwrap();
        assert_eq!(follow.forget, from);
        follow.update
    }

    fn create(
        &mut self,
        path: &str,
        content: &str,
        frontmatter: Option<&serde_json::Value>,
    ) -> Result<(), VaultError> {
        let taken = self.read(path).is_ok();
        let full = create_note(path, taken, content, frontmatter)?;
        self.write(path, &full);
        Ok(())
    }

    fn metadata(&self, path: &str) -> Result<&NoteMetadata, VaultError> {
        self.vault.get_note_metadata(path)
    }

    fn contents(&self) -> Table<String> {
        let mut table = Table::new();
        for (p, c) in &self.files {
            table.insert(p.clone(), c.clone());
        }
        table
    }

    fn search(&self, query: &str) -> Vec<SearchResult> {
        self.vault.index().search_text(&self.contents(), query, 40).unwrap()
    }
}

fn fixture() -> Place {
    Place::open(&[
        (
            "Projects/rust-mcp.md",
            "---\ntags: [rust, mcp, project]\nstatus: active\n---\n# Rust MCP Server\n\nA server. ^intro\n\n## Features\n\n- One\n\n## Architecture\n\nSee [[getting-started]] and [[python-tools]]. #backend ^impl\n",
        ),
        (
            "Projects/python-tools.md",
            "---\ntags: [python, project/tools]\npriority: 2\n---\n# Python Tools\n\nUses [[rust-mcp]] and [[nonexistent-page]].\n",
        ),
        ("Notes/getting-started.md", "# Getting Started\n\nStart with [[rust-mcp]].\n"),
        ("Notes/deep/nested-note.md", "# Nested Note\n\nLinks to [[another-missing-note]].\n"),
        ("Daily/2026-03-19.md", "# 2026-03-19\n\nWorked on [[rust-mcp]]. #journal\n"),
        ("orphan.md", "# Orphan Note\n\nAbout quantum entanglement.\n"),
        ("Templates/daily.md", "# {{date}}\n"),
    ])
}

fn paths(notes: &[&NoteMetadata]) -> Vec<String> {
    notes.iter().map(|n| n.path.clone()).collect()
}

fn has(list: &[String], path: &str) -> bool {
    list.iter().any(|p| p == path)
}

// ── reading ────────────────────────────────────────────────────

#[test]
fn note_metadata() {
    let place = fixture();
    let meta = place.metadata("Projects/rust-mcp.md").unwrap();
    assert_eq!(meta.title, "rust-mcp");
    assert!(meta.tags.contains(&"rust".to_string()));
    assert!(meta.tags.contains(&"mcp".to_string()));
    assert!(meta.tags.contains(&"backend".to_string()));
    assert!(!meta.headings.is_empty());
    assert!(!meta.links.is_empty());
    assert!(!meta.block_refs.is_empty());
}

#[test]
fn document_map() {
    let place = fixture();
    let map: DocumentMap = build_document_map(&place.read("Projects/rust-mcp.md").unwrap());
    assert!(map.headings.iter().any(|h| h.contains("Rust MCP Server")));
    assert!(map.headings.iter().any(|h| h.contains("Architecture")));
    assert!(map.block_refs.contains(&"intro".to_string()));
    assert!(map.block_refs.contains(&"impl".to_string()));
    assert!(map.frontmatter_fields.contains(&"tags".to_string()));
    assert!(map.frontmatter_fields.contains(&"status".to_string()));
}

#[test]
fn integration_tests_vault_stats() {
    let place = fixture();
    let stats = place.vault.index().stats();
    assert!(stats.total_notes >= 7);
    assert!(stats.total_tags > 0);
    assert!(stats.total_links > 0);
}

// ── searching ──────────────────────────────────────────────────

#[test]
fn search_text_finds_match() {
    let results = fixture().search("quantum entanglement");
    assert!(!results.is_empty());
    assert!(results.iter().any(|r| r.path == "orphan.md"));
}

#[test]
fn integration_tests_search_text_case_insensitive() {
    let results = fixture().search("RUST MCP SERVER");
    assert!(results.iter().any(|r| r.path == "Projects/rust-mcp.md"));
}

#[test]
fn search_text_no_match() {
    assert!(fixture().search("xyzzy_nonexistent_term_12345").is_empty());
}

#[test]
fn search_regex() {
    let place = fixture();
    let results = place.vault.index().search_regex(&place.contents(), r"#\w+", 40).unwrap();
    assert!(!results.is_empty());
}

#[test]
fn search_by_tag_exact() {
    let place = fixture();
    let notes = paths(&place.vault.index().notes_with_tag("rust"));
    assert!(has(&notes, "Projects/rust-mcp.md"));
}

#[test]
fn search_by_tag_prefix() {
    let place = fixture();
    let notes = paths(&place.vault.index().notes_with_tag_prefix("project"));
    assert!(has(&notes, "Projects/rust-mcp.md"));
    assert!(has(&notes, "Projects/python-tools.md"));
}

#[test]
fn search_frontmatter_exact() {
    let place = fixture();
    let notes = paths(&place.vault.index().search_frontmatter("status", &json("\"active\"")));
    assert!(has(&notes, "Projects/rust-mcp.md"));
}

#[test]
fn search_frontmatter_exists() {
    let place = fixture();
    let notes = paths(&place.vault.index().search_frontmatter_exists("priority"));
    assert!(has(&notes, "Projects/python-tools.md"));
}

#[test]
fn search_frontmatter_contains() {
    let place = fixture();
    let notes =
        paths(&place.vault.index().search_frontmatter_contains("tags", &json("\"python\"")));
    assert!(has(&notes, "Projects/python-tools.md"));
}

// ── links ──────────────────────────────────────────────────────

#[test]
fn backlinks() {
    let place = fixture();
    let notes = paths(&place.vault.index().backlinks_to("Projects/rust-mcp.md"));
    assert!(has(&notes, "Projects/python-tools.md"));
    assert!(has(&notes, "Notes/getting-started.md"));
    assert!(has(&notes, "Daily/2026-03-19.md"));
}

#[test]
fn outgoing_links() {
    let place = fixture();
    let links = place.vault.index().outgoing_links("Projects/rust-mcp.md");
    let targets: Vec<&str> = links.iter().map(|l| l.target.as_str()).collect();
    assert!(targets.contains(&"getting-started"));
    assert!(targets.contains(&"python-tools"));
}

#[test]
fn broken_links() {
    let place = fixture();
    let broken = place.vault.index().broken_links();
    let targets: Vec<&str> = broken.iter().map(|(_, l)| l.target.as_str()).collect();
    assert!(targets.contains(&"nonexistent-page"));
    assert!(targets.contains(&"another-missing-note"));
}

#[test]
fn orphan_notes() {
    let place = fixture();
    let orphans = paths(&place.vault.index().orphan_notes());
    assert!(has(&orphans, "orphan.md"), "orphan.md should be an orphan, got: {orphans:?}");
}

#[test]
fn link_resolution() {
    let place = fixture();
    let resolved = place.vault.index().resolve_link("rust-mcp");
    assert_eq!(resolved, Some("Projects/rust-mcp.md".to_string()));
    assert!(place.vault.index().resolve_link("nonexistent-page").is_none());
}

// ── writing ────────────────────────────────────────────────────

#[test]
fn create_and_read() {
    let mut place = fixture();
    place.create("new-note.md", "# New Note\nBody\n", None).unwrap();
    assert!(place.read("new-note.md").unwrap().contains("# New Note"));
}

#[test]
fn create_with_frontmatter() {
    let mut place = fixture();
    let fm = json(r#"{"tags": ["test"], "draft": true}"#);
    place.create("fm-note.md", "Body\n", Some(&fm)).unwrap();
    let content = place.read("fm-note.md").unwrap();
    assert!(content.starts_with("---\n"));
    assert!(content.contains("Body\n"));
}

#[test]
fn create_fails_if_exists() {
    let err = fixture().create("Projects/rust-mcp.md", "dup", None).unwrap_err();
    assert!(matches!(err, VaultError::AlreadyExists(_)), "expected AlreadyExists, got: {err:?}");
}

#[test]
fn prepend_after_frontmatter() {
    let mut place = fixture();
    let content = prepend_note(&place.read("Projects/rust-mcp.md").unwrap(), "Prepended\n");
    place.write("Projects/rust-mcp.md", &content);
    let prepended_pos = content.find("Prepended\n").unwrap();
    let heading_pos = content.find("# Rust MCP Server").unwrap();
    assert!(prepended_pos < heading_pos);
    assert!(content.starts_with("---\n"));
}

#[test]
fn vault_prepend_after_frontmatter() {
    let content = prepend_note("---\ntags: [a]\n---\nExisting body\n", "Prepended\n");
    assert_eq!(content, "---\ntags: [a]\n---\nPrepended\nExisting body\n");
}

#[test]
fn vault_prepend_no_frontmatter() {
    assert_eq!(prepend_note("Existing\n", "Prepended\n"), "Prepended\nExisting\n");
}

#[test]
fn delete_note() {
    let mut place = fixture();
    let follow = place.delete("orphan.md");
    assert!(matches!(follow, FollowUp::Forget(p) if p == "orphan.md"));
    assert!(matches!(place.metadata("orphan.md"), Err(VaultError::NoteNotFound(_))));
}

#[test]
fn move_note() {
    let mut place = fixture();
    let update = place.rename("orphan.md", "Archive/orphan.md");
    assert_eq!(update.as_deref(), Some("Archive/orphan.md"));
    assert!(place.metadata("Archive/orphan.md").is_ok());
    assert!(place.metadata("orphan.md").is_err());
}

#[test]
fn vault_delete_removes_from_index() {
    let mut place = Place::open(&[]);
    place.write("ephemeral.md", "# Gone soon");
    assert!(place.metadata("ephemeral.md").is_ok());
    place.delete("ephemeral.md");
    assert!(place.metadata("ephemeral.md").is_err());
}

#[test]
fn vault_move_updates_index() {
    let mut place = Place::open(&[]);
    place.write("old.md", "# Moved");
    assert!(place.metadata("old.md").is_ok());
    assert_eq!(place.rename("old.md", "subdir/new.md").as_deref(), Some("subdir/new.md"));
    assert!(place.metadata("old.md").is_err());
    assert!(place.metadata("subdir/new.md").is_ok());
}

#[test]
fn vault_patch_note() {
    let mut place = Place::open(&[]);
    place.write("patched.md", "# Section\nOriginal content\n# Other\nKeep this\n");
    let request = PatchRequest {
        operation: PatchOperation::Replace,
        target_type: PatchTargetType::Heading,
        target: "Section".into(),
        content: "Replaced content\n".into(),
    };
    let patched = apply_patch(&place.read("patched.md").unwrap(), &request, "patched.md").unwrap();
    place.write("patched.md", &patched);
    assert_eq!(patched, "# Section\nReplaced content\n# Other\nKeep this\n");
}

#[test]
fn patch_heading_append() {
    let place = fixture();
    let request = PatchRequest {
        operation: PatchOperation::Append,
        target_type: PatchTargetType::Heading,
        target: "Features".into(),
        content: "- New feature added\n".into(),
    };
    let content = place.read("Projects/rust-mcp.md").unwrap();
    let patched = apply_patch(&content, &request, "Projects/rust-mcp.md").unwrap();
    assert!(patched.contains("- New feature added\n"));
}

#[test]
fn vault_frontmatter_operations() {
    let content = "# Note\nBody text\n";
    let content = set_frontmatter_field(content, "status", json("\"draft\"")).unwrap();
    let content = set_frontmatter_field(&content, "priority", json("1")).unwrap();
    let obj = parse_frontmatter(&content).unwrap().unwrap();
    assert_eq!(obj["status"], "draft");
    assert_eq!(obj["priority"], 1);
    let content = remove_frontmatter_field(&content, "status").unwrap();
    let obj = parse_frontmatter(&content).unwrap().unwrap();
    assert!(obj.get("status").is_none());
    assert_eq!(obj["priority"], 1);
}

#[test]
fn frontmatter_set_and_remove() {
    let place = fixture();
    let content = place.read("orphan.md").unwrap();
    let with = set_frontmatter_field(&content, "category", json("\"archive\"")).unwrap();
    assert_eq!(parse_frontmatter(&with).unwrap().unwrap()["category"], "archive");
    let without = remove_frontmatter_field(&with, "category").unwrap();
    assert_eq!(without, content);
}

#[test]
fn frontmatter_get_existing() {
    let content = fixture().read("Projects/rust-mcp.md").unwrap();
    let obj = parse_frontmatter(&content).unwrap().unwrap();
    assert_eq!(obj["status"], "active");
}

#[test]
fn write_then_search() {
    let mut place = fixture();
    place.write("searchme.md", "# Unique\nfindable_xyzzy_content\n");
    let results = place.search("findable_xyzzy_content");
    assert!(results.iter().any(|r| r.path == "searchme.md"));
}

#[test]
fn vault_search_text() {
    let mut place = Place::open(&[]);
    place.write("searchable.md", "# Rust\nRust is a systems language.\n");
    place.write("other.md", "# Python\nPython is dynamic.\n");
    let results = place.search("Rust");
    assert!(!results.is_empty());
    assert!(results.iter().any(|r| r.path == "searchable.md"));
    assert!(!results.iter().any(|r| r.path == "other.md"));
}

#[test]
fn vault_tags_and_backlinks() {
    let mut place = Place::open(&[]);
    place.write("a.md", "---\ntags: [project]\n---\n# A\n[[b]]\n");
    place.write("b.md", "---\ntags: [project]\n---\n# B\n");
    let index = place.vault.index();
    assert_eq!(index.notes_with_tag("project").len(), 2);
    assert!(index.outgoing_links("a.md").iter().any(|l| l.target == "b"));
    assert!(has(&paths(&index.backlinks_to("b.md")), "a.md"));
}

#[test]
fn mod_vault_stats() {
    let mut place = Place::open(&[]);
    place.write("one.md", "# One");
    place.write("two.md", "# Two");
    assert_eq!(place.vault.index().stats().total_notes, 2);
}

#[test]
fn notes_that_cannot_be_indexed_are_reported() {
    let mut place = fixture();
    let result = place.vault.reindex("orphan.md", Ok(note("---\n- a\n---\n")));
    assert!(matches!(result, Err(VaultError::Other(_))));
    assert!(place.metadata("orphan.md").is_err());
    let gone = Err(VaultError::NoteNotFound("x.md".into()));
    assert!(place.vault.move_note("Notes/getting-started.md", "x.md", gone).is_err());
}

// ── exclusion ──────────────────────────────────────────────────

#[test]
fn exclusion_filters_index() {
    let place = Place::open_with(
        &[("Active/note.md", "# Active Note\n"), ("Archive/old.md", "# Old Note\n")],
        None,
        &["Archive/"],
    );
    assert!(place.metadata("Active/note.md").is_ok());
    assert!(place.metadata("Archive/old.md").is_err());
    assert_eq!(place.vault.index().stats().total_notes, 1, "only non-excluded notes counted");
}

#[test]
fn exclusion_via_ignore_file() {
    let place = Place::open_with(
        &[("Active/note.md", "# Active\n"), ("Archive/old.md", "# Old\n")],
        Some("Archive/\n"),
        &[],
    );
    assert!(place.metadata("Active/note.md").is_ok());
    assert!(place.metadata("Archive/old.md").is_err());
}

#[test]
fn obsidian_mcp_dir_not_indexed() {
    let place = Place::open(&[
        (".obsidian-mcp/test.md", "# Should not be indexed\n"),
        ("visible.md", "# Visible\n"),
    ]);
    assert!(place.metadata("visible.md").is_ok());
    assert!(place.metadata(".obsidian-mcp/test.md").is_err());
    assert_eq!(place.vault.index().stats().total_notes, 1);
}

#[test]
fn vault_info_reports_exclusion_stats() {
    let place = Place::open_with(
        &[("Active/note.md", "# Active Note\n"), ("Archive/old.md", "# Old Note\n")],
        None,
        &["Archive/"],
    );
    let stats = place.vault.index().stats();
    assert_eq!(stats.excluded_notes, 1, "one .md file in Archive/ should be excluded");
    assert_eq!(stats.total_notes, 1, "only non-excluded notes counted");
    assert!(place.vault.exclude().patterns().iter().any(|p| p.contains("Archive")));
    assert_eq!(place.vault.mcp_data(), place.vault.mcp_home());
}

#[test]
fn move_into_excluded_dir() {
    let mut place = Place::open_with(&[], None, &["Archive/**"]);
    place.write("active.md", "# Active");
    assert!(place.metadata("active.md").is_ok());
    assert_eq!(place.rename("active.md", "Archive/archived.md"), None);
    assert!(place.metadata("active.md").is_err());
    assert!(place.metadata("Archive/archived.md").is_err());
    assert_eq!(place.vault.index().stats().excluded_notes, 1);
}

#[test]
fn move_into_excluded_dir_removes_from_index() {
    let mut place = Place::open_with(&[("note.md", "# Movable Note\n")], None, &["Archive/"]);
    assert!(place.metadata("note.md").is_ok());
    place.rename("note.md", "Archive/moved.md");
    assert!(place.metadata("Archive/moved.md").is_err());
    assert!(place.metadata("note.md").is_err());
}

#[test]
fn move_out_of_excluded_dir() {
    let mut place =
        Place::open_with(&[("Archive/hidden.md", "# Hidden")], None, &["Archive/**"]);
    assert!(place.metadata("Archive/hidden.md").is_err());
    assert_eq!(place.rename("Archive/hidden.md", "visible.md").as_deref(), Some("visible.md"));
    assert!(place.metadata("visible.md").is_ok());
    assert!(place.metadata("Archive/hidden.md").is_err());
    assert_eq!(place.vault.index().stats().excluded_notes, 0);
}

#[test]
fn move_between_excluded_dirs() {
    let mut place =
        Place::open_with(&[("Archive/old.md", "# Old")], None, &["Archive/**", "Trash/**"]);
    assert!(place.metadata("Archive/old.md").is_err());
    assert_eq!(place.rename("Archive/old.md", "Trash/old.md"), None);
    assert!(place.metadata("Archive/old.md").is_err());
    assert!(place.metadata("Trash/old.md").is_err());
    assert_eq!(place.vault.index().stats().excluded_notes, 1);
}

#[test]
fn write_note_to_excluded_path_does_not_index() {
    let mut place = Place::open_with(&[], None, &["Archive/**"]);
    let follow = place.write("Archive/direct.md", "# Direct excluded");
    assert!(matches!(follow, FollowUp::Forget(_)));
    assert!(place.metadata("Archive/direct.md").is_err());
    assert_eq!(place.vault.index().stats().excluded_notes, 1);
    place.delete("Archive/direct.md");
    assert_eq!(place.vault.index().stats().excluded_notes, 0);
}

#[test]
fn search_text_excludes_excluded_notes() {
    let place = Place::open_with(
        &[
            ("Active/visible.md", "# Visible\nzebra-platypus-unique-search-term here\n"),
            ("Archive/hidden.md", "# Hidden\nzebra-platypus-unique-search-term here\n"),
        ],
        None,
        &["Archive/"],
    );
    let results = place.search("zebra-platypus-unique-search-term");
    assert_eq!(results.len(), 1, "only the non-excluded note should appear");
    assert_eq!(results[0].path, "Active/visible.md");
}

// ── directories ────────────────────────────────────────────────

#[test]
fn mcp_data_equal_to_mcp_home_uses_default_location() {
    let home = mcp_home_path("/v");
    assert_eq!(home, "/v/.obsidian-mcp");
    assert_eq!(mcp_data_path("/v", Some("/v/.obsidian-mcp/"), None, Some(&home), "slug"), home);
    assert_eq!(mcp_data_path("/v", Some("/link"), Some(&home), Some(&home), "slug"), home);
    assert_eq!(mcp_data_path("/v", None, None, Some(&home), "slug"), home);
}

#[test]
fn mcp_data_external_path() {
    let home = mcp_home_path("/v");
    let data = mcp_data_path("/v", Some("/data"), Some("/data"), Some(&home), "slug");
    assert_eq!(data, "/data/vaults/slug");
}

#[test]
fn legacy_embedding_migration_is_idempotent() {
    assert!(copies_old_cache(true, false));
    assert!(!copies_old_cache(true, true));
    assert!(!copies_old_cache(false, false));
    assert_eq!(embedding_cache_path("/v/.obsidian-mcp"), "/v/.obsidian-mcp/embeddings/embeddings.bin");
}

// ── embedding tasks ────────────────────────────────────────────

#[test]
fn embedding_generation_rejects_stale_tasks_same_path() {
    let mut place = Place::open(&[]);
    place.write("race.md", "# Race");
    let first = place.vault.reindex_embedding("race.md", Some("# Race")).unwrap();
    let second = place.vault.reindex_embedding("race.md", Some("# Race")).unwrap();
    assert_eq!(second.text, "race\nRace\n# Race");
    assert!(!place.vault.should_commit_embedding_task("race.md", first.generation));
    assert!(place.vault.should_commit_embedding_task("race.md", second.generation));
}

#[test]
fn embedding_generation_rejects_deleted_note_tasks() {
    let mut place = Place::open(&[]);
    place.write("deleted.md", "# Deleted");
    let job = place.vault.reindex_embedding("deleted.md", Some("# Deleted")).unwrap();
    place.delete("deleted.md");
    assert!(!place.vault.should_commit_embedding_task("deleted.md", job.generation));
    assert!(place.vault.reindex_embedding("deleted.md", Some("# Deleted")).is_none());
}

#[test]
fn embedding_generation_rejects_moved_old_path_tasks() {
    let mut place = Place::open(&[]);
    place.write("moved-from.md", "# Move");
    let old = place.vault.reindex_embedding("moved-from.md", Some("# Move")).unwrap();
    place.rename("moved-from.md", "nested/moved-to.md");
    assert!(!place.vault.should_commit_embedding_task("moved-from.md", old.generation));
    let new = place.vault.reindex_embedding("nested/moved-to.md", Some("# Move")).unwrap();
    assert!(place.vault.should_commit_embedding_task("nested/moved-to.md", new.generation));
    assert!(place.vault.reindex_embedding("nested/moved-to.md", None).is_none());
}

// ── searches with ranking ──────────────────────────────────────

#[test]
fn hits_come_with_the_words_of_the_query() {
    let re = compile_query_word_regex("rust server");
    let found = word_matches(re.as_ref(), Some("A Rust server"), 1);
    assert_eq!(found.len(), 2);
    assert_eq!(found[0].context, " Rust ");
    assert_eq!((found[0].match_start, found[0].match_end), (1, 5));
    assert!(word_matches(re.as_ref(), Some("A Rust server"), 0).is_empty());
    assert!(word_matches(re.as_ref(), None, 1).is_empty());
    assert!(word_matches(None, Some("A Rust server"), 1).is_empty());
}

#[test]
fn results_are_limited() {
    let place = fixture();
    let results = place.search("rust");
    let n = results.len();
    assert!(n > 2);
    assert_eq!(first_results(results, 2).len(), 2);
    assert_eq!(first_results(place.search("rust"), 100).len(), n);
}

#[test]
fn search_hybrid_without_tantivy_errors() {
    let err = plan_hybrid("q", false, true, true, 5, 10).unwrap_err();
    assert!(matches!(err, VaultError::Other(_)));
    assert!(matches!(plan_hybrid("q", true, false, true, 5, 10), Err(VaultError::Embedding(_))));
    assert!(matches!(plan_hybrid("q", true, true, false, 5, 10), Err(VaultError::Embedding(_))));
    assert_eq!(plan_hybrid("q", true, true, true, 5, 10).unwrap(), Some(10));
    assert_eq!(plan_hybrid("q", true, true, true, 20, 10).unwrap(), Some(20));
}

#[test]
fn search_hybrid_empty_query_returns_empty() {
    assert_eq!(plan_hybrid("", false, false, false, 5, 10).unwrap(), None);
}

#[test]
fn search_semantic_disabled_returns_error() {
    assert!(matches!(check_semantic(false, false), Err(VaultError::Embedding(_))));
    assert!(check_semantic(true, true).is_ok());
}

// ── periodic notes ─────────────────────────────────────────────

#[test]
fn list_recent_daily_notes() {
    let core = CoreDailyNotesConfig { format: None, folder: Some("Daily".into()), template: None };
    let config = read_periodic_config(None, Some(core), NotePeriod::Daily);
    let notes = list_recent_periodic_notes(&vec!["2026-03-19.md".to_string()], &config, 10);
    assert!(
        notes.iter().any(|p| p.ends_with("2026-03-19.md")),
        "expected to find the daily note, got: {notes:?}"
    );
}

#[test]
fn periodic_notes_are_made_from_templates() {
    let date = Date { year: 2026, month: 1, day: 15 };
    let config = PeriodicNoteConfig {
        format: "YYYY-MM-DD".into(),
        folder: Some("Daily".into()),
        template: Some("Templates/daily".into()),
    };
    let path = try_periodic_note_path(&config, &date).unwrap();
    assert_eq!(path, "Daily/2026-01-15.md");
    assert_eq!(template_to_read(&config, false).map(|s| s.as_str()), Some("Templates/daily"));
    assert!(template_to_read(&config, true).is_none());

    let template = Some(Ok("# {{title}} {{time}}".to_string()));
    let made = create_periodic_note(&path, false, None, template, &date, "08:00").unwrap();
    assert_eq!(made.as_deref(), Some("# 2026-01-15 08:00"));

    let given = create_periodic_note(&path, false, Some("mine"), None, &date, "08:00").unwrap();
    assert_eq!(given.as_deref(), Some("mine"));

    let lost = Some(Err(VaultError::NoteNotFound("Templates/daily".into())));
    let empty = create_periodic_note(&path, false, None, lost, &date, "08:00").unwrap();
    assert_eq!(empty.as_deref(), Some(""));

    let failed = Some(Err(VaultError::Io("denied".into())));
    assert!(matches!(
        create_periodic_note(&path, false, None, failed, &date, "08:00"),
        Err(VaultError::Io(_))
    ));
    assert!(matches!(
        create_periodic_note(&path, true, None, None, &date, "08:00"),
        Err(VaultError::AlreadyExists(p)) if p == path
    ));
}

#[test]
fn events_reach_the_index() {
    let mut place = Place::open_with(&[("a.md", "# A")], None, &["Archive/"]);
    let follow = place.vault.process_event("/v/b.md", Some(Ok(note("See [[a]]."))));
    assert!(matches!(follow, FollowUp::Update(p) if p == "b.md"));
    assert_eq!(paths(&place.vault.index().backlinks_to("a.md")), vec!["b.md"]);
    let follow = place.vault.process_event("/v/Archive/c.md", Some(Ok(note("See [[a]]."))));
    assert!(matches!(follow, FollowUp::Forget(p) if p == "Archive/c.md"));
    assert_eq!(place.vault.index().stats().excluded_notes, 1);
    assert_eq!(paths(&place.vault.index().backlinks_to("a.md")), vec!["b.md"]);
    let follow = place.vault.process_event("/v/b.md", None);
    assert!(matches!(follow, FollowUp::Forget(p) if p == "b.md"));
    assert!(place.vault.index().backlinks_to("a.md").is_empty());
    let follow = place.vault.process_event("/v/.obsidian/x.md", Some(Ok(note("x"))));
    assert!(matches!(follow, FollowUp::Nothing));
    assert_eq!(place.vault.index().stats().total_notes, 1);
}

#[test]
fn move_out_of_excluded_dir_adds_to_index() {
    let mut place =
        Place::open_with(&[("Archive/hidden.md", "# Hidden Note\n")], None, &["Archive/"]);
    assert!(place.metadata("Archive/hidden.md").is_err());
    assert_eq!(place.vault.index().stats().excluded_notes, 1);
    let new_path = place.rename("Archive/hidden.md", "visible.md");
    assert_eq!(new_path.as_deref(), Some("visible.md"));
    assert!(place.metadata("visible.md").is_ok());
    assert!(place.metadata("Archive/hidden.md").is_err());
    assert_eq!(place.vault.index().stats().excluded_notes, 0);
}

#[test]
fn vault_document_map() {
    let map: DocumentMap =
        build_document_map("---\ntags: [rust]\n---\n# Heading\n## Sub\nText ^block1\n");
    assert!(map.headings.iter().any(|h| h.contains("Heading")));
    assert!(map.headings.iter().any(|h| h.contains("Sub")));
    assert!(map.block_refs.contains(&"block1".to_string()));
    assert!(map.frontmatter_fields.contains(&"tags".to_string()));
}

#[test]
fn vault_create_note_basic() {
    let mut place = Place::open(&[]);
    place.create("new.md", "# New\n", None).unwrap();
    assert_eq!(place.read("new.md").unwrap(), "# New\n");
}

#[test]
fn vault_create_note_with_frontmatter() {
    let mut place = Place::open(&[]);
    let fm = json(r#"{"tags": ["test"], "draft": true}"#);
    place.create("fm.md", "Body\n", Some(&fm)).unwrap();
    let content = place.read("fm.md").unwrap();
    assert!(content.starts_with("---\n"));
    assert!(content.contains("Body\n"));
}

#[test]
fn vault_create_note_fails_if_exists() {
    let mut place = Place::open(&[]);
    place.create("dup.md", "", None).unwrap();
    let err = place.create("dup.md", "new", None).unwrap_err();
    assert!(matches!(err, VaultError::AlreadyExists(_)));
}

#[test]
fn vault_search_text_with_options_fallback_without_tantivy() {
    let mut place = Place::open(&[]);
    place.write("fallback.md", "# Fallback\nFallback search content.\n");
    let results = first_results(place.search("fallback"), 10);
    assert!(results.iter().any(|r| r.path == "fallback.md"));
}
