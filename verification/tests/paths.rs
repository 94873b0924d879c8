//! Paths of a vault and the files at them.
use obsidian_vault::error::VaultError;
use obsidian_vault::fs::{
    file_exists, list_files, listed_directory, map_not_found, move_file, resolve_path, Location,
};
use obsidian_vault::path::{
    canonical_unicode_key, normalize_relative, relative_from_absolute, resolve_existing,
    resolve_for_write, resolve_parent_for_write, tidied, Listing, Reading, ResolvedPath, Step,
};
use unicode_normalization::UnicodeNormalization;

const ROOT: &str = "/vault";

/// The files of a vault by path; a directory ends with a slash.
struct Disk {
    entries: Vec<(String, String)>,
    /// Places that lead out of the vault.
    links_out: Vec<String>,
}

impl Disk {
    fn new(entries: &[(&str, &str)]) -> Disk {
        Disk {
            entries: entries.iter().map(|(p, c)| (p.to_string(), c.to_string())).collect(),
            links_out: vec![],
        }
    }

    fn is_dir(&self, rel: &str) -> bool {
        let prefix = format!("{rel}/");
        rel.is_empty() || self.entries.iter().any(|(p, _)| p.starts_with(&prefix))
    }

    fn is_file(&self, rel: &str) -> bool {
        self.entries.iter().any(|(p, _)| p == rel)
    }

    fn children(&self, rel: &str) -> Vec<String> {
        let prefix = if rel.is_empty() { String::new() } else { format!("{rel}/") };
        let mut names: Vec<String> = vec![];
        for (p, _) in &self.entries {
            if let Some(rest) = p.strip_prefix(&prefix) {
                let name = rest.split('/').next().unwrap().to_string();
                if !name.is_empty() && !names.contains(&name) {
                    names.push(name);
                }
            }
        }
        names
    }

    fn read_dir(&self, place: &str) -> Reading {
        let rel = place.strip_prefix(ROOT).unwrap().trim_start_matches('/');
        let inside = !self.links_out.iter().any(|p| p == rel);
        let listing = if self.is_dir(rel) {
            Listing::Names(self.children(rel))
        } else if self.is_file(rel) {
            Listing::Failed("not a directory".to_string())
        } else {
            Listing::Missing
        };
        Reading { listing, inside }
    }

    fn existing(&self, relative: &str) -> Result<ResolvedPath, VaultError> {
        let mut seen = vec![];
        loop {
            match resolve_existing(ROOT, relative, &seen)? {
                Step::Done(p) => return Ok(p),
                Step::Look(place) => seen.push(self.read_dir(&place)),
                Step::LookParent(_) => unreachable!(),
            }
        }
    }

    fn for_write(&self, relative: &str, inside: bool) -> Result<ResolvedPath, VaultError> {
        let mut seen = vec![];
        let mut parent_inside = None;
        loop {
            match resolve_for_write(ROOT, relative, &seen, parent_inside)? {
                Step::Done(p) => return Ok(p),
                Step::Look(place) => seen.push(self.read_dir(&place)),
                Step::LookParent(_) => parent_inside = Some(inside),
            }
        }
    }

    fn place(&self, relative: &str) -> Result<String, VaultError> {
        let mut seen = vec![];
        let mut parent_inside = None;
        loop {
            match resolve_path(ROOT, relative, &seen, parent_inside)? {
                Location::At(p) => return Ok(p),
                Location::Pending(Step::Look(place)) => seen.push(self.read_dir(&place)),
                Location::Pending(_) => parent_inside = Some(true),
            }
        }
    }

    fn file_exists(&self, relative: &str) -> bool {
        let found = self.existing(relative);
        let is_file = match &found {
            Ok(p) => self.is_file(&p.relative),
            Err(_) => false,
        };
        file_exists(&found, is_file)
    }

    fn is_taken(&self, relative: &str) -> bool {
        self.is_file(relative) || self.is_dir(relative)
    }

    fn move_file(&mut self, from: &str, to: &str) -> Result<(String, String), VaultError> {
        let source = self.existing(from)?;
        let target = self.for_write(to, true)?;
        let taken = self.is_taken(&target.relative);
        let moved = move_file(source, target, taken, to)?;
        for (p, _) in self.entries.iter_mut() {
            if *p == moved.from {
                *p = moved.to.clone();
            }
        }
        Ok((moved.from, moved.to))
    }

    fn walk(&self, dir: &str, recursive: bool) -> Vec<String> {
        let mut out: Vec<String> = vec![];
        for name in self.children(dir) {
            let rel = if dir.is_empty() { name } else { format!("{dir}/{name}") };
            out.push(format!("{ROOT}/{rel}"));
            if recursive && self.is_dir(&rel) {
                out.extend(self.walk(&rel, true));
            }
        }
        out
    }

    fn list(&self, dir: &str, recursive: bool, glob: Option<&str>) -> Result<Vec<String>, VaultError> {
        let found = self.existing(dir);
        let relative = match &found {
            Ok(p) => p.relative.clone(),
            Err(_) => String::new(),
        };
        let place = listed_directory(dir, found, self.is_dir(&relative))?;
        list_files(ROOT, &place, &self.walk(&relative, recursive), glob)
    }
}

fn setup_vault() -> Disk {
    Disk::new(&[
        ("note1.md", "# Note 1\nHello"),
        ("note2.md", "# Note 2\nWorld"),
        ("subfolder/nested.md", "# Nested\nContent"),
        (".obsidian/config.json", "{\"key\":\"value\"}"),
        (".hidden_file", "secret"),
    ])
}

// ── resolve_path ──

#[test]
fn resolve_simple_relative_path() {
    let result = setup_vault().place("note1.md").unwrap();
    assert_eq!(result, "/vault/note1.md");
}

#[test]
fn resolve_rejects_parent_escape() {
    let err = setup_vault().place("../etc/passwd").unwrap_err();
    assert!(matches!(err, VaultError::OutsideVault(_)));
}

#[test]
fn resolve_rejects_nested_parent_escape() {
    let err = setup_vault().place("subfolder/../../etc/passwd").unwrap_err();
    assert!(matches!(err, VaultError::OutsideVault(_)));
}

#[test]
fn resolve_rejects_absolute_path() {
    let err = setup_vault().place("/etc/passwd").unwrap_err();
    assert!(matches!(err, VaultError::InvalidPath(_)));
}

#[test]
fn resolve_normalizes_dot() {
    let result = setup_vault().place("./note1.md").unwrap();
    assert_eq!(result, "/vault/note1.md");
}

#[test]
fn resolve_allows_valid_parent_dir() {
    let result = setup_vault().place("subfolder/../note1.md").unwrap();
    assert_eq!(result, "/vault/note1.md");
}

// ── file_exists ──

#[test]
fn exists_returns_true_for_file() {
    assert!(setup_vault().file_exists("note1.md"));
}

#[test]
fn exists_returns_false_for_missing() {
    assert!(!setup_vault().file_exists("no_such.md"));
}

#[test]
fn exists_returns_false_for_directory() {
    assert!(!setup_vault().file_exists("subfolder"));
}

#[test]
fn exists_returns_false_for_traversal() {
    assert!(!setup_vault().file_exists("../../etc/passwd"));
}

// ── missing files ──

#[test]
fn stat_not_found() {
    let err = setup_vault().existing("missing.md").unwrap_err();
    assert!(matches!(err, VaultError::NoteNotFound(p) if p == "missing.md"));
}

#[test]
fn read_missing_file() {
    let err = setup_vault().existing("nope.md").unwrap_err();
    assert!(matches!(err, VaultError::NoteNotFound(_)));
}

#[test]
fn delete_missing_file() {
    let err = setup_vault().existing("missing.md").unwrap_err();
    assert!(matches!(err, VaultError::NoteNotFound(_)));
}

#[test]
fn failed_operations_become_errors() {
    assert!(matches!(map_not_found("a.md", true, "gone"), VaultError::NoteNotFound(p) if p == "a.md"));
    assert!(matches!(map_not_found("a.md", false, "denied"), VaultError::Io(m) if m == "denied"));
}

// ── spelling on disk ──

#[test]
fn write_returns_existing_unicode_normalized_relative_path() {
    let composed = "02_База-знаний/lic1c.md";
    let decomposed: String = composed.nfd().collect();
    let vault = Disk::new(&[(decomposed.as_str(), "old")]);
    let written = vault.for_write(composed, true).unwrap();
    assert_eq!(written.relative, decomposed);
}

#[test]
fn write_uses_existing_unicode_normalized_parent() {
    let composed_dir = "02_База-знаний";
    let decomposed_dir: String = composed_dir.nfd().collect();
    let vault = Disk::new(&[(format!("{decomposed_dir}/").as_str(), "")]);
    let written = vault.for_write("02_База-знаний/New.md", true).unwrap();
    assert_eq!(written.relative, format!("{decomposed_dir}/New.md"));
}

#[test]
fn resolve_existing_finds_decomposed_filename_from_composed_input() {
    let composed = "02_База-знаний/Сущности/lic1c.md";
    let decomposed: String = composed.nfd().collect();
    let vault = Disk::new(&[(decomposed.as_str(), "# License\n")]);
    let resolved = vault.existing(composed).unwrap();
    assert_eq!(resolved.relative, decomposed);
    assert_eq!(resolved.absolute, format!("{ROOT}/{decomposed}"));
}

#[test]
fn resolve_for_write_uses_existing_decomposed_parent() {
    let decomposed_dir: String = "02_База-знаний".nfd().collect();
    let vault = Disk::new(&[(format!("{decomposed_dir}/").as_str(), "")]);
    let resolved = vault.for_write("02_База-знаний/New.md", true).unwrap();
    assert_eq!(resolved.relative, format!("{decomposed_dir}/New.md"));
    assert!(resolved.absolute.ends_with(&format!("{decomposed_dir}/New.md")));
}

#[test]
fn resolve_for_write_preserves_new_final_component_spelling() {
    let vault = Disk::new(&[(".obsidian/", "")]);
    let path = "New Folder/café.md";
    let resolved = vault.for_write(path, true).unwrap();
    assert_eq!(resolved.relative, path);
}

#[test]
fn ambiguous_spellings_are_refused() {
    let composed: String = "é.md".nfc().collect();
    let decomposed: String = "é.md".nfd().collect();
    assert_eq!(canonical_unicode_key(&decomposed), composed);
    let vault = Disk::new(&[("\u{212b}.md", "angstrom"), ("A\u{30a}.md", "ring")]);
    let err = vault.existing("\u{c5}.md").unwrap_err();
    assert!(matches!(err, VaultError::InvalidPath(m) if m.contains("ambiguous")));
    assert_eq!(vault.existing("A\u{30a}.md").unwrap().relative, "A\u{30a}.md");
}

#[test]
fn links_out_of_the_vault_are_refused() {
    let mut vault = setup_vault();
    vault.links_out.push("subfolder".to_string());
    let err = vault.existing("subfolder/nested.md").unwrap_err();
    assert!(matches!(err, VaultError::OutsideVault(_)));
    let err = vault.for_write("new/note.md", false).unwrap_err();
    assert!(matches!(err, VaultError::OutsideVault(_)));
}

#[test]
fn files_are_no_directories() {
    let err = setup_vault().existing("note1.md/inner.md").unwrap_err();
    assert!(matches!(err, VaultError::Io(_)));
}

#[test]
fn parents_of_write_targets() {
    let resolved = setup_vault().for_write("subfolder/new.md", true).unwrap();
    let (relative, absolute) = resolve_parent_for_write(&resolved);
    assert_eq!(relative, "subfolder");
    assert_eq!(absolute, "/vault/subfolder");
}

// ── move_file ──

#[test]
fn move_renames_file() {
    let mut vault = setup_vault();
    let (from, to) = vault.move_file("note1.md", "renamed.md").unwrap();
    assert_eq!(from, "note1.md");
    assert_eq!(to, "renamed.md");
    assert!(!vault.file_exists("note1.md"));
    assert!(vault.file_exists("renamed.md"));
}

#[test]
fn move_returns_existing_unicode_normalized_source() {
    let composed = "02_База-знаний/lic1c.md";
    let decomposed: String = composed.nfd().collect();
    let mut vault = Disk::new(&[(decomposed.as_str(), "# License")]);
    let (from, to) = vault.move_file(composed, "Moved/lic1c.md").unwrap();
    assert_eq!(from, decomposed);
    assert_eq!(to, "Moved/lic1c.md");
    assert!(vault.file_exists("Moved/lic1c.md"));
}

#[test]
fn move_creates_parent_dirs() {
    let mut vault = setup_vault();
    vault.move_file("note1.md", "new_dir/note1.md").unwrap();
    assert!(vault.file_exists("new_dir/note1.md"));
}

#[test]
fn move_rejects_existing_destination() {
    let err = setup_vault().move_file("note1.md", "note2.md").unwrap_err();
    assert!(matches!(err, VaultError::AlreadyExists(_)));
}

#[test]
fn move_rejects_missing_source() {
    let err = setup_vault().move_file("ghost.md", "dest.md").unwrap_err();
    assert!(matches!(err, VaultError::NoteNotFound(_)));
}

// ── list_files ──

#[test]
fn list_root_non_recursive() {
    let names = setup_vault().list("", false, None).unwrap();
    assert!(names.contains(&"note1.md".to_string()));
    assert!(names.contains(&"note2.md".to_string()));
    assert!(names.contains(&"subfolder".to_string()));
    assert!(!names.iter().any(|n| n.contains(".obsidian")));
    assert!(!names.iter().any(|n| n.contains(".hidden")));
}

#[test]
fn list_recursive() {
    let names = setup_vault().list("", true, None).unwrap();
    assert!(names.contains(&"note1.md".to_string()));
    assert!(names.iter().any(|n| n.contains("nested.md")));
    assert!(!names.iter().any(|n| n.contains(".obsidian")));
}

#[test]
fn list_with_glob() {
    let files = setup_vault().list("", true, Some("**/*.md")).unwrap();
    for f in &files {
        assert!(f.ends_with(".md"));
    }
    assert!(files.len() >= 3);
    let err = setup_vault().list("", true, Some("[bad")).unwrap_err();
    assert!(matches!(err, VaultError::InvalidPath(_)));
}

#[test]
fn list_excludes_obsidian_dir() {
    for f in &setup_vault().list("", true, None).unwrap() {
        assert!(!f.contains(".obsidian"), "should exclude .obsidian: {f}");
    }
}

#[test]
fn list_excludes_hidden_files() {
    for f in &setup_vault().list("", false, None).unwrap() {
        assert!(!f.starts_with('.'), "should exclude hidden: {f}");
    }
}

#[test]
fn list_nonexistent_dir() {
    let err = setup_vault().list("no_such_dir", false, None).unwrap_err();
    assert!(matches!(err, VaultError::DirectoryNotFound(_)));
}

#[test]
fn a_file_is_no_directory() {
    let err = setup_vault().list("note1.md", false, None).unwrap_err();
    assert!(matches!(err, VaultError::DirectoryNotFound(p) if p == "note1.md"));
    let err = setup_vault().list("../elsewhere", false, None).unwrap_err();
    assert!(matches!(err, VaultError::OutsideVault(_)));
}

#[test]
fn list_subdirectory() {
    let files = setup_vault().list("subfolder", false, None).unwrap();
    assert_eq!(files, vec!["subfolder/nested.md"]);
}

#[test]
fn listings_are_sorted_by_component() {
    let vault = Disk::new(&[("b.md", ""), ("a-b.md", ""), ("a/c.md", ""), ("a.md", "")]);
    let files = vault.list("", true, None).unwrap();
    assert_eq!(files, vec!["a", "a/c.md", "a-b.md", "a.md", "b.md"]);
}

// ── normalization ──

#[test]
fn normalize_rejects_parent_escape() {
    let err = normalize_relative("../secret.md").unwrap_err();
    assert!(matches!(err, VaultError::OutsideVault(_)));
}

#[test]
fn normalize_rejects_absolute_path() {
    let err = normalize_relative("/tmp/secret.md").unwrap_err();
    assert!(matches!(err, VaultError::InvalidPath(_)));
}

#[test]
fn normalize_walks_the_components() {
    assert_eq!(normalize_relative("a/./b/../c.md").unwrap(), "a/c.md");
    assert_eq!(normalize_relative("").unwrap(), "");
}

#[test]
fn relative_from_absolute_returns_forward_slashes() {
    assert_eq!(relative_from_absolute(ROOT, "/vault/a/b.md").unwrap(), "a/b.md");
    let err = relative_from_absolute(ROOT, "/vaults/a.md").unwrap_err();
    assert!(matches!(err, VaultError::OutsideVault(_)));
}

// ── a whole vault ──

fn fixture() -> Disk {
    Disk::new(&[
        ("Projects/rust-mcp.md", "# Rust MCP Server\n"),
        ("Projects/python-tools.md", "# Python Tools\n"),
        ("Notes/getting-started.md", "# Getting Started\n"),
        ("Notes/deep/nested-note.md", "# Nested Note\n"),
        ("Daily/2026-03-19.md", "# 2026-03-19\n"),
        ("orphan.md", "# Orphan Note\n"),
        ("Templates/daily.md", "# {{date}}\n"),
        (".obsidian/app.json", "{}"),
    ])
}

#[test]
fn list_files_root() {
    let files = fixture().list("", true, None).unwrap();
    assert!(files.len() >= 7, "expected at least 7 files, got {}", files.len());
}

#[test]
fn list_files_subdirectory() {
    let files = fixture().list("Projects", false, None).unwrap();
    assert!(files.iter().any(|f| f.ends_with("rust-mcp.md")));
    assert!(files.iter().any(|f| f.ends_with("python-tools.md")));
}

#[test]
fn list_files_glob() {
    let files = fixture().list("", true, Some("**/*.md")).unwrap();
    assert!(files.iter().all(|f| f.ends_with(".md")));
    assert!(!files.is_empty());
}

#[test]
fn vault_list_includes_excluded_notes() {
    let disk = Disk::new(&[("Active/note.md", "# Active\n"), ("Archive/old.md", "# Old\n")]);
    let files = disk.list("", true, None).unwrap();
    assert!(files.contains(&"Active/note.md".to_string()));
    assert!(files.contains(&"Archive/old.md".to_string()));
}

#[test]
fn backslashes_lead_nowhere_that_slashes_do_not() {
    assert_eq!(normalize_relative("\\etc").unwrap(), "etc");
    assert_eq!(normalize_relative("./\\x").unwrap(), "x");
    assert!(matches!(normalize_relative("\\..\\b").unwrap_err(), VaultError::OutsideVault(_)));
    assert!(matches!(
        normalize_relative("a\\..\\..\\b").unwrap_err(),
        VaultError::OutsideVault(_)
    ));
    assert!(matches!(normalize_relative("..\\b").unwrap_err(), VaultError::OutsideVault(_)));
    assert_eq!(normalize_relative("a\\.\\b\\..\\c.md").unwrap(), "a/c.md");
}

#[test]
fn tidy_paths_are_the_same_paths() {
    assert_eq!(tidied("notes//./a.md"), "notes/a.md");
    assert_eq!(tidied("./a/"), "./a");
    assert_eq!(tidied("//a/.//b"), "/a/b");
    assert_eq!(tidied(""), "");
}

#[test]
fn path_below_the_root_is_the_normalized_path() {
    for p in ["notes//./a.md", "a/b/../c.md", "./\\x", "\\x", ".\\\\x", "a\\b", "./.\\a", "", "."] {
        let absolute = format!("{ROOT}/{p}");
        assert_eq!(
            relative_from_absolute(ROOT, &absolute).unwrap(),
            normalize_relative(p).unwrap(),
            "{p}"
        );
    }
    for p in ["..", "../a", "a\\..\\..\\b", "./\\..", "a/../..\\b"] {
        let absolute = format!("{ROOT}/{p}");
        assert!(normalize_relative(p).is_err(), "{p}");
        assert!(relative_from_absolute(ROOT, &absolute).is_err(), "{p}");
    }
}

#[test]
fn backslashes_in_names_do_not_stop_a_listing() {
    let vault = Disk::new(&[("\\x", ""), ("a.md", ""), ("a\\..\\..\\b", "")]);
    assert_eq!(vault.list("", true, None).unwrap(), vec!["a.md", "x"]);
    let outside = vec!["/elsewhere/a.md".to_string()];
    assert!(matches!(
        list_files(ROOT, ROOT, &outside, None).unwrap_err(),
        VaultError::OutsideVault(_)
    ));
}
