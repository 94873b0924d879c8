//! Notes whose paths are spelled in another Unicode form than on disk.
use obsidian_vault::error::VaultError;
use obsidian_vault::index::{NoteFile, ScannedFile};
use obsidian_vault::models::{FileStat, NoteMetadata};
use obsidian_vault::path::{resolve_existing, resolve_for_write, Listing, Reading, Step};
use obsidian_vault::table::Table;
use obsidian_vault::vault::{mcp_home_path, Vault};
use unicode_normalization::UnicodeNormalization;

const ROOT: &str = "/v";

fn note(content: &str) -> NoteFile {
    NoteFile {
        content: content.to_string(),
        stat: FileStat { size: content.len() as u64, created: None, modified: None },
    }
}

/// A vault with its files.
struct Place {
    files: Vec<(String, String)>,
    vault: Vault,
}

impl Place {
    fn open(entries: &[(&str, &str)]) -> Place {
        let files: Vec<(String, String)> =
            entries.iter().map(|(p, c)| (p.to_string(), c.to_string())).collect();
        let scanned: Vec<ScannedFile> = files
            .iter()
            .map(|(p, c)| ScannedFile {
                path: p.clone(),
                size: Some(c.len() as u64),
                note: Some(note(c)),
            })
            .collect();
        let vault = Vault::open(ROOT, mcp_home_path(ROOT), None, None, &vec![], &scanned).unwrap();
        Place { files, vault }
    }

    fn read_dir(&self, place: &str) -> Reading {
        let rel = place.strip_prefix(ROOT).unwrap().trim_start_matches('/');
        let prefix = if rel.is_empty() { String::new() } else { format!("{rel}/") };
        let mut names: Vec<String> = vec![];
        for (p, _) in &self.files {
            if let Some(rest) = p.strip_prefix(&prefix) {
                let name = rest.split('/').next().unwrap().to_string();
                if !names.contains(&name) {
                    names.push(name);
                }
            }
        }
        let listing = if names.is_empty() { Listing::Missing } else { Listing::Names(names) };
        Reading { listing, inside: true }
    }

    /// The path on disk of what is there.
    fn actual(&self, path: &str) -> Result<String, VaultError> {
        let mut seen = vec![];
        loop {
            match resolve_existing(ROOT, path, &seen)? {
                Step::Done(p) => return Ok(p.relative),
                Step::Look(place) => seen.push(self.read_dir(&place)),
                Step::LookParent(_) => unreachable!(),
            }
        }
    }

    /// The path on disk of what is to be written.
    fn target(&self, path: &str) -> Result<String, VaultError> {
        let mut seen = vec![];
        let mut parent_inside = None;
        loop {
            match resolve_for_write(ROOT, path, &seen, parent_inside)? {
                Step::Done(p) => return Ok(p.relative),
                Step::Look(place) => seen.push(self.read_dir(&place)),
                Step::LookParent(_) => parent_inside = Some(true),
            }
        }
    }

    fn read(&self, path: &str) -> Result<String, VaultError> {
        let actual = self.actual(path)?;
        Ok(self.files.iter().find(|(p, _)| *p == actual).unwrap().1.clone())
    }

    fn write(&mut self, path: &str, content: &str) {
        let actual = self.target(path).unwrap();
        self.files.retain(|(p, _)| *p != actual);
        self.files.push((actual.clone(), content.to_string()));
        self.vault.reindex(&actual, Ok(note(content))).unwrap();
    }

    fn rename(&mut self, from: &str, to: &str) -> String {
        let content = self.read(from).unwrap();
        let source = self.actual(from).unwrap();
        let target = self.target(to).unwrap();
        self.files.retain(|(p, _)| *p != source);
        self.files.push((target.clone(), content.clone()));
        self.vault.move_note(&source, &target, Ok(note(&content))).unwrap();
        target
    }

    fn delete(&mut self, path: &str) {
        let actual = self.actual(path).unwrap();
        self.files.retain(|(p, _)| *p != actual);
        self.vault.delete_note(&actual);
    }

    fn metadata(&self, path: &str) -> Result<&NoteMetadata, VaultError> {
        self.vault.get_note_metadata(&self.actual(path)?)
    }

    fn search(&self, query: &str) -> Vec<String> {
        let mut table = Table::new();
        for (p, c) in &self.files {
            table.insert(p.clone(), c.clone());
        }
        let found = self.vault.index().search_text(&table, query, 40).unwrap();
        found.iter().map(|r| r.path.clone()).collect()
    }
}

#[test]
fn canonically_equivalent_unicode_paths_work_end_to_end() {
    let composed = "02_База-знаний/Сущности/lic1c.md";
    let composed_link_target = "02_База-знаний/Сущности/lic1c";
    let decomposed: String = composed.nfd().collect();
    assert_ne!(composed, decomposed);
    let source = format!("# Source\n\nLinks to [[{composed_link_target}]].\n");
    let mut place = Place::open(&[
        (&decomposed, "# License\n\ninitial-unicode-token\n\nLinks to [[source]].\n"),
        ("source.md", &source),
    ]);

    assert!(place.read(composed).unwrap().contains("initial-unicode-token"));
    assert_eq!(place.metadata(composed).unwrap().path, decomposed);

    let actual = place.actual(composed).unwrap();
    let backlinks = place.vault.index().backlinks_to(&actual);
    assert!(backlinks.iter().any(|note| note.path == "source.md"));
    let outgoing = place.vault.index().outgoing_links(&actual);
    assert!(outgoing.iter().any(|link| link.target == "source"));

    assert_eq!(place.search("initial-unicode-token"), vec![decomposed.clone()]);

    let appended = format!("{}\nappended-unicode-token\n", place.read(composed).unwrap());
    place.write(composed, &appended);
    assert!(place.read(composed).unwrap().contains("appended-unicode-token"));
    assert_eq!(place.search("appended-unicode-token"), vec![decomposed.clone()]);

    let moved = place.rename(composed, "Moved/lic1c.md");
    assert_eq!(moved, "Moved/lic1c.md");
    assert!(place.metadata(composed).is_err());
    assert!(place.metadata(&moved).is_ok());

    place.delete(&moved);
    assert!(place.metadata(&moved).is_err());
    assert!(place.search("appended-unicode-token").is_empty());
}

#[test]
fn vault_metadata_accepts_canonically_equivalent_unicode_path() {
    let composed = "02_База-знаний/Сущности/lic1c.md";
    let decomposed: String = composed.nfd().collect();
    let place = Place::open(&[(&decomposed, "# License\n")]);
    assert_eq!(place.metadata(composed).unwrap().path, decomposed);
}

#[test]
fn vault_write_delete_and_move_use_unicode_canonical_index_key() {
    let composed = "02_База-знаний/Сущности/lic1c.md";
    let decomposed: String = composed.nfd().collect();
    let mut place = Place::open(&[("a.md", "# A\n"), (&decomposed, "# Old\n")]);
    let before = place.vault.index().stats().total_notes;

    place.write(composed, "# New\nunique-unicode-write\n");
    assert_eq!(place.vault.index().stats().total_notes, before);
    assert_eq!(place.search("unique-unicode-write").first().cloned(), Some(decomposed.clone()));

    let moved = place.rename(composed, "Moved/lic1c.md");
    assert_eq!(moved, "Moved/lic1c.md");
    assert!(place.metadata(composed).is_err());
    assert!(place.metadata(&moved).is_ok());

    place.delete(&moved);
    assert!(place.metadata(&moved).is_err());
}

#[test]
fn links_find_notes_in_either_unicode_form() {
    let composed = "База-знаний/Приём";
    let decomposed: String = composed.nfd().collect();
    assert_ne!(composed, decomposed);
    for (disk, link) in [(composed, decomposed.as_str()), (decomposed.as_str(), composed)] {
        let path = format!("{disk}.md");
        let place = Place::open(&[(path.as_str(), "# A\n")]);
        assert_eq!(place.vault.index().resolve_link(link), Some(path.clone()));
        assert_eq!(
            place.vault.index().resolve_link(link.split('/').last().unwrap()),
            Some(path.clone())
        );
        assert_eq!(place.vault.index().resolve_link(&link.to_uppercase()), Some(path));
    }
}
