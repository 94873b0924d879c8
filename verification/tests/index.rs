//! The vault index.
use obsidian_vault::error::VaultError;
use obsidian_vault::exclude::ExcludeSet;
use obsidian_vault::index::{extract_match_context, NoteFile, ScannedFile, VaultIndex};
use obsidian_vault::models::FileStat;
use obsidian_vault::table::Table;
use std::collections::HashSet;

/// Files by path.
type Disk = Vec<(String, String)>;

fn json(text: &str) -> serde_json::Value {
    serde_json::from_str(text).unwrap()
}

fn put(disk: &mut Disk, path: &str, content: &str) {
    disk.retain(|(p, _)| p != path);
    disk.push((path.to_string(), content.to_string()));
}

fn rename(disk: &mut Disk, from: &str, to: &str) {
    for (p, _) in disk.iter_mut() {
        if p == from {
            *p = to.to_string();
        }
    }
}

fn note(content: &str) -> NoteFile {
    NoteFile {
        content: content.to_string(),
        stat: FileStat { size: content.len() as u64, created: None, modified: None },
    }
}

fn read(disk: &Disk, path: &str) -> Result<NoteFile, VaultError> {
    match disk.iter().find(|(p, _)| p == path) {
        Some((_, content)) => Ok(note(content)),
        None => Err(VaultError::NoteNotFound(path.to_string())),
    }
}

fn scan(disk: &Disk) -> Vec<ScannedFile> {
    disk.iter()
        .map(|(path, content)| ScannedFile {
            path: path.clone(),
            size: Some(content.len() as u64),
            note: Some(note(content)),
        })
        .collect()
}

fn build(disk: &Disk) -> VaultIndex {
    VaultIndex::build(&scan(disk), &ExcludeSet::build(vec![]).unwrap())
}

fn contents(disk: &Disk) -> Table<String> {
    let mut table = Table::new();
    for (path, content) in disk {
        table.insert(path.clone(), content.clone());
    }
    table
}

fn setup_vault() -> Disk {
    let mut disk = vec![];
    put(
        &mut disk,
        "daily.md",
        "---\ntags: [journal]\n---\n# Daily Note\n\nToday I worked on #daily stuff.\n\nSee [[notes]] for more.\n",
    );
    put(
        &mut disk,
        "notes/alpha.md",
        "---\ntags: [rust, mcp]\n---\n# Alpha\n\nThis is about the #project.\n\nSee also [[beta]].\n",
    );
    put(
        &mut disk,
        "notes/beta.md",
        "# Beta\n\nReferences back to [[alpha]].\n\nSome text ^block1\n",
    );
    put(&mut disk, "notes/gamma.md", "# Gamma\n\nAn isolated note with no links.\n");
    put(
        &mut disk,
        "archive/old.md",
        "# Old Note\n\nThis references [[alpha]] from the archive.\n",
    );
    put(&mut disk, ".obsidian/config.json", r#"{"key":"val"}"#);
    put(&mut disk, ".hidden", "secret");
    put(&mut disk, "image.png", "fake-image-data");
    disk
}

// ── build tests ─────────────────────────────────────────────────

#[test]
fn build_indexes_all_notes() {
    let vault = setup_vault();
    let index = build(&vault);

    assert_eq!(index.notes().len(), 5);
    assert!(index.get_note("daily.md").is_some());
    assert!(index.get_note("notes/alpha.md").is_some());
    assert!(index.get_note("notes/beta.md").is_some());
    assert!(index.get_note("notes/gamma.md").is_some());
    assert!(index.get_note("archive/old.md").is_some());
}

#[test]
fn build_computes_correct_backlinks() {
    let vault = setup_vault();
    let index = build(&vault);

    let alpha_bl = index.backlinks_to("notes/alpha.md");
    let bl_paths: HashSet<String> = alpha_bl.iter().map(|n| n.path.clone()).collect();
    assert!(bl_paths.contains("notes/beta.md"));
    assert!(bl_paths.contains("archive/old.md"));
    assert_eq!(alpha_bl.len(), 2);

    let beta_bl = index.backlinks_to("notes/beta.md");
    assert_eq!(beta_bl.len(), 1);
    assert_eq!(beta_bl[0].path, "notes/alpha.md");

    assert!(index.backlinks_to("notes/gamma.md").is_empty());
}

#[test]
fn build_indexes_both_frontmatter_and_inline_tags() {
    let vault = setup_vault();
    let index = build(&vault);

    let alpha = index.get_note("notes/alpha.md").unwrap();
    assert!(alpha.tags.contains(&"rust".to_string()));
    assert!(alpha.tags.contains(&"mcp".to_string()));
    assert!(alpha.tags.contains(&"project".to_string()));

    let rust_notes = index.notes_with_tag("rust");
    assert_eq!(rust_notes.len(), 1);
    assert_eq!(rust_notes[0].path, "notes/alpha.md");

    let journal_notes = index.notes_with_tag("journal");
    assert_eq!(journal_notes.len(), 1);
    assert_eq!(journal_notes[0].path, "daily.md");
}

#[test]
fn build_detects_broken_links() {
    let vault = setup_vault();
    let index = build(&vault);

    let broken = index.broken_links();
    let broken_targets: Vec<&str> = broken.iter().map(|(_, l)| l.target.as_str()).collect();
    assert!(broken_targets.contains(&"notes"));
}

#[test]
fn build_detects_orphan_notes() {
    let vault = setup_vault();
    let index = build(&vault);

    let orphans = index.orphan_notes();
    let orphan_paths: HashSet<&str> = orphans.iter().map(|n| n.path.as_str()).collect();
    assert!(orphan_paths.contains("notes/gamma.md"));
    assert!(!orphan_paths.contains("notes/alpha.md"));
    assert!(!orphan_paths.contains("notes/beta.md"));
    assert!(!orphan_paths.contains("daily.md"));
}

#[test]
fn build_computes_stats() {
    let vault = setup_vault();
    let index = build(&vault);

    let stats = index.stats();
    assert_eq!(stats.total_notes, 5);
    assert_eq!(stats.total_files, 6); // 5 .md + 1 .png
    assert!(stats.total_tags >= 5); // journal, daily, rust, mcp, project
    assert_eq!(stats.total_links, 4); // daily->notes, alpha->beta, beta->alpha, old->alpha
    assert!(stats.vault_size_bytes > 0);
}

#[test]
fn build_skips_hidden_and_obsidian() {
    let vault = setup_vault();
    let index = build(&vault);

    for i in 0..index.notes().len() {
        let s = index.notes().key_at(i);
        assert!(!s.contains(".obsidian"), "indexed .obsidian: {s}");
        assert!(!s.starts_with('.'), "indexed hidden file: {s}");
    }
}

#[test]
fn outgoing_links_correct() {
    let vault = setup_vault();
    let index = build(&vault);

    let links = index.outgoing_links("notes/alpha.md");
    let targets: Vec<&str> = links.iter().map(|l| l.target.as_str()).collect();
    assert!(targets.contains(&"beta"));
}

#[test]
fn get_note_missing_returns_none() {
    let vault = setup_vault();
    let index = build(&vault);

    assert!(index.get_note("nonexistent.md").is_none());
}

#[test]
fn notes_with_nonexistent_tag_returns_empty() {
    let vault = setup_vault();
    let index = build(&vault);

    assert!(index.notes_with_tag("nonexistent").is_empty());
}

#[test]
fn note_title_is_file_stem() {
    let vault = setup_vault();
    let index = build(&vault);

    assert_eq!(
        index.get_note("notes/alpha.md").unwrap().title,
        "alpha"
    );
    assert_eq!(
        index.get_note("daily.md").unwrap().title,
        "daily"
    );
}

#[test]
fn block_refs_indexed() {
    let vault = setup_vault();
    let index = build(&vault);

    let beta = index.get_note("notes/beta.md").unwrap();
    assert!(beta.block_refs.contains(&"block1".to_string()));
}

// ── mutation tests ──────────────────────────────────────────────

#[test]
fn reindex_file_updates_tags_and_links() {
    let mut vault = setup_vault();
    let mut index = build(&vault);

    put(&mut vault, "notes/gamma.md", "# Gamma\n\nNow with #newtag and [[alpha]].\n");

    index.reindex_file("notes/gamma.md", read(&vault, "notes/gamma.md")).unwrap();

    let gamma = index.get_note("notes/gamma.md").unwrap();
    assert!(gamma.tags.contains(&"newtag".to_string()));
    assert!(gamma.links.iter().any(|l| l.target == "alpha"));

    assert_eq!(index.notes_with_tag("newtag").len(), 1);

    let alpha_bl = index.backlinks_to("notes/alpha.md");
    let bl_paths: HashSet<String> = alpha_bl.iter().map(|n| n.path.clone()).collect();
    assert!(bl_paths.contains("notes/gamma.md"));

    let orphans = index.orphan_notes();
    let orphan_paths: HashSet<&str> = orphans.iter().map(|n| n.path.as_str()).collect();
    assert!(!orphan_paths.contains("notes/gamma.md"));
}

#[test]
fn reindex_file_handles_new_file() {
    let mut vault = setup_vault();
    let mut index = build(&vault);
    let old_count = index.notes().len();

    put(&mut vault, "brand_new.md", "# Brand New\n\nA fresh note with #fresh tag.\n");

    index.reindex_file("brand_new.md", read(&vault, "brand_new.md")).unwrap();

    assert_eq!(index.notes().len(), old_count + 1);
    assert!(index.get_note("brand_new.md").is_some());
    assert_eq!(index.notes_with_tag("fresh").len(), 1);
}

#[test]
fn reindex_removes_old_tag_contributions() {
    let mut vault = setup_vault();
    let mut index = build(&vault);

    assert_eq!(index.notes_with_tag("rust").len(), 1);

    put(&mut vault, "notes/alpha.md", "# Alpha\n\nRemoved all tags and links.\n");

    index.reindex_file("notes/alpha.md", read(&vault, "notes/alpha.md")).unwrap();

    assert!(index.notes_with_tag("rust").is_empty());
    assert!(index.notes_with_tag("mcp").is_empty());
    assert!(index.notes_with_tag("project").is_empty());
}

#[test]
fn remove_file_cleans_up_everything() {
    let vault = setup_vault();
    let mut index = build(&vault);

    assert!(index.get_note("notes/alpha.md").is_some());
    assert!(!index.notes_with_tag("rust").is_empty());

    index.remove_file("notes/alpha.md");

    assert!(index.get_note("notes/alpha.md").is_none());
    assert!(index.notes_with_tag("rust").is_empty());

    let beta_bl = index.backlinks_to("notes/beta.md");
    assert!(
        !beta_bl
            .iter()
            .any(|n| n.path == "notes/alpha.md"),
        "alpha should no longer appear as a backlink source"
    );
}

#[test]
fn remove_file_updates_stats() {
    let vault = setup_vault();
    let mut index = build(&vault);
    let old_notes = index.stats().total_notes;

    index.remove_file("notes/gamma.md");

    assert_eq!(index.stats().total_notes, old_notes - 1);
}

#[test]
fn rename_file_updates_index() {
    let mut vault = setup_vault();
    let mut index = build(&vault);

    rename(&mut vault, "notes/gamma.md", "notes/delta.md");

    index.rename_file("notes/gamma.md", "notes/delta.md", read(&vault, "notes/delta.md")).unwrap();

    assert!(index.get_note("notes/gamma.md").is_none());
    let delta = index.get_note("notes/delta.md").unwrap();
    assert_eq!(delta.title, "delta");
}

// ── search tests ────────────────────────────────────────────────

#[test]
fn search_text_finds_matches() {
    let vault = setup_vault();
    let index = build(&vault);

    let results = index.search_text(&contents(&vault), "alpha", 20).unwrap();
    assert!(!results.is_empty());

    let result_paths: HashSet<String> = results.iter().map(|r| r.path.clone()).collect();
    assert!(result_paths.contains("notes/alpha.md"));
}

#[test]
fn index_search_text_case_insensitive() {
    let vault = setup_vault();
    let index = build(&vault);

    let lower = index.search_text(&contents(&vault), "gamma", 10).unwrap();
    let upper = index.search_text(&contents(&vault), "GAMMA", 10).unwrap();

    assert_eq!(lower.len(), upper.len());
    assert!(!lower.is_empty());
}

#[test]
fn search_text_empty_query_returns_empty() {
    let vault = setup_vault();
    let index = build(&vault);

    assert!(index.search_text(&contents(&vault), "", 10).unwrap().is_empty());
}

#[test]
fn search_text_context_offsets_are_correct() {
    let vault = setup_vault();
    let index = build(&vault);

    let results = index.search_text(&contents(&vault), "isolated", 50).unwrap();
    assert!(!results.is_empty());

    for result in &results {
        for m in &result.matches {
            let extracted: String = m
                .context
                .chars()
                .skip(m.match_start)
                .take(m.match_end - m.match_start)
                .collect();
            assert_eq!(extracted.to_lowercase(), "isolated");
        }
    }
}

#[test]
fn search_regex_works() {
    let vault = setup_vault();
    let index = build(&vault);

    let results = index
        .search_regex(&contents(&vault), r"\[\[alpha\]\]", 10)
        .unwrap();
    assert!(!results.is_empty());

    let paths: HashSet<String> = results.iter().map(|r| r.path.clone()).collect();
    assert!(paths.contains("notes/beta.md"));
    assert!(paths.contains("archive/old.md"));
}

#[test]
fn search_regex_invalid_pattern_returns_error() {
    let vault = setup_vault();
    let index = build(&vault);

    let result = index.search_regex(&contents(&vault), "[invalid", 10);
    assert!(result.is_err());
    assert!(matches!(
        result.unwrap_err(),
        VaultError::InvalidRegex { .. }
    ));
}

#[test]
fn search_frontmatter_exact_match() {
    let vault = setup_vault();
    let index = build(&vault);

    let results = index.search_frontmatter("tags", &json(r#"["journal"]"#));
    assert_eq!(results.len(), 1);
    assert_eq!(results[0].path, "daily.md");
}

#[test]
fn search_frontmatter_array_contains() {
    let vault = setup_vault();
    let index = build(&vault);

    let results = index.search_frontmatter("tags", &json(r#""rust""#));
    assert_eq!(results.len(), 1);
    assert_eq!(results[0].path, "notes/alpha.md");
}

#[test]
fn search_frontmatter_no_match() {
    let vault = setup_vault();
    let index = build(&vault);

    assert!(
        index
            .search_frontmatter("tags", &json(r#""nonexistent""#))
            .is_empty()
    );
}

#[test]
fn search_frontmatter_missing_field() {
    let vault = setup_vault();
    let index = build(&vault);

    assert!(
        index
            .search_frontmatter("no_such_field", &json(r#""value""#))
            .is_empty()
    );
}

// ── tag prefix tests ────────────────────────────────────────────

#[test]
fn notes_with_tag_prefix_includes_nested() {
    let mut dir: Disk = vec![];
    put(&mut dir, "a.md", "# A\n\n#inbox\n");
    put(&mut dir, "b.md", "# B\n\n#inbox/read\n");
    put(&mut dir, "c.md", "# C\n\n#inbox/todo\n");
    put(&mut dir, "d.md", "---\ntags: [other]\n---\n# D\n");

    let index = build(&dir);
    let results = index.notes_with_tag_prefix("inbox");
    assert_eq!(results.len(), 3);
}

#[test]
fn notes_with_tag_prefix_no_false_prefix_match() {
    let mut dir: Disk = vec![];
    put(&mut dir, "a.md", "# A\n\n#inbox\n");
    put(&mut dir, "b.md", "# B\n\n#inboxes\n");

    let index = build(&dir);
    let results = index.notes_with_tag_prefix("inbox");
    assert_eq!(results.len(), 1);
    assert_eq!(results[0].path, "a.md");
}

#[test]
fn notes_with_tag_prefix_deduplicates() {
    let mut dir: Disk = vec![];
    put(&mut dir, "a.md", "# A\n\n#inbox #inbox/read\n");

    let index = build(&dir);
    let results = index.notes_with_tag_prefix("inbox");
    assert_eq!(results.len(), 1);
}

// ── frontmatter exists / contains tests ─────────────────────────

#[test]
fn search_frontmatter_exists_finds_field() {
    let vault = setup_vault();
    let index = build(&vault);

    let results = index.search_frontmatter_exists("tags");
    assert_eq!(results.len(), 2); // daily.md + notes/alpha.md
}

#[test]
fn search_frontmatter_exists_missing_field_empty() {
    let vault = setup_vault();
    let index = build(&vault);

    assert!(index.search_frontmatter_exists("nonexistent").is_empty());
}

#[test]
fn search_frontmatter_contains_string_substring() {
    let mut dir: Disk = vec![];
    put(&mut dir, "a.md", "---\nstatus: in progress\n---\n# A\n");
    put(&mut dir, "b.md", "---\nstatus: done\n---\n# B\n");

    let index = build(&dir);
    let results = index.search_frontmatter_contains("status", &json(r#""progress""#));
    assert_eq!(results.len(), 1);
    assert_eq!(results[0].path, "a.md");
}

#[test]
fn search_frontmatter_contains_array_element() {
    let vault = setup_vault();
    let index = build(&vault);

    let results = index.search_frontmatter_contains("tags", &json(r#""rust""#));
    assert_eq!(results.len(), 1);
    assert_eq!(results[0].path, "notes/alpha.md");
}

// ── exclusion, errors and context ───────────────────────────────

#[test]
fn excluded_notes_are_kept_out_and_counted() {
    let mut disk = setup_vault();
    put(&mut disk, "archive/scan.pdf", "pdf");
    let set = ExcludeSet::build(vec!["archive/".into()]).unwrap();
    let mut index = VaultIndex::build(&scan(&disk), &set);
    assert!(index.get_note("archive/old.md").is_none());
    assert_eq!(index.stats().total_notes, 4);
    assert_eq!(index.stats().total_files, 5);
    assert_eq!(index.stats().excluded_notes, 1);
    assert_eq!(index.backlinks_to("notes/alpha.md").len(), 1);
    index.add_excluded_file("notes/gamma.md");
    assert_eq!(index.stats().excluded_notes, 2);
    assert!(index.get_note("notes/gamma.md").is_none());
    index.remove_file("notes/gamma.md");
    assert_eq!(index.stats().excluded_notes, 1);
}

#[test]
fn unreadable_and_malformed_notes_are_skipped() {
    let mut files = scan(&setup_vault());
    files.push(ScannedFile { path: "lost.md".into(), size: None, note: None });
    files.push(ScannedFile {
        path: "bad.md".into(),
        size: Some(3),
        note: Some(note("---\n[bad\n---\n")),
    });
    let index = VaultIndex::build(&files, &ExcludeSet::build(vec![]).unwrap());
    assert_eq!(index.stats().total_notes, 5);
}

#[test]
fn failed_reindexing_drops_the_note() {
    let vault = setup_vault();
    let mut index = build(&vault);
    let result = index.reindex_file("notes/alpha.md", Err(VaultError::Io("denied".into())));
    assert!(matches!(result, Err(VaultError::Io(m)) if m == "denied"));
    assert!(index.get_note("notes/alpha.md").is_none());
    assert!(index.notes_with_tag("rust").is_empty());
    assert_eq!(index.stats().total_notes, 5);
    let result = index.reindex_file("notes/beta.md", Ok(note("---\n- a\n---\n")));
    assert!(result.is_err());
}

#[test]
fn failed_renaming_drops_the_note() {
    let vault = setup_vault();
    let mut index = build(&vault);
    let gone = Err(VaultError::NoteNotFound("notes/new.md".into()));
    assert!(index.rename_file("notes/gamma.md", "notes/new.md", gone).is_err());
    assert!(index.get_note("notes/gamma.md").is_none());
    assert!(index.get_note("notes/new.md").is_none());
    assert_eq!(index.resolve_link("new").as_deref(), Some("notes/new.md"));
}

#[test]
fn sizes_are_summed() {
    let disk: Disk = vec![
        ("a.md".to_string(), "12345".to_string()),
        ("b.txt".to_string(), "123".to_string()),
    ];
    let index = build(&disk);
    assert_eq!(index.stats().vault_size_bytes, 8);
    assert_eq!(index.stats().total_links, 0);
    assert_eq!(index.stats().total_tags, 0);
}

#[test]
fn empty_index_is_empty() {
    let index = VaultIndex::empty();
    assert_eq!(index.notes().len(), 0);
    assert_eq!(index.stats().total_files, 0);
    assert!(index.broken_links().is_empty());
}

#[test]
fn context_keeps_characters_whole() {
    let chars: Vec<char> = "\u{e4}\u{e4}\nfoo\u{e4}\u{e4}".chars().collect();
    let m = extract_match_context(&chars, 5, 8, 2);
    assert_eq!(m.context, "\u{e4}\nfoo\u{e4}");
    assert_eq!((m.match_start, m.match_end, m.line), (2, 5, 1));
    let wide = extract_match_context(&chars, 5, 8, usize::MAX);
    assert_eq!(wide.context.chars().count(), 8);
}

#[test]
fn search_skips_notes_that_could_not_be_read() {
    let vault = setup_vault();
    let index = build(&vault);
    let mut some = Table::new();
    some.insert("notes/beta.md".to_string(), "alpha Alpha".to_string());
    let results = index.search_text(&some, "alpha", 3).unwrap();
    assert_eq!(results.len(), 1);
    assert_eq!(results[0].matches.len(), 2);
    assert_eq!(results[0].matches[1].context, "ha Alpha");
}

#[test]
fn field_queries_on_numbers_and_nulls() {
    let disk: Disk = vec![("a.md".to_string(), "---\nn: 7\nz: null\n---\n".to_string())];
    let index = build(&disk);
    assert_eq!(index.search_frontmatter("n", &json("7")).len(), 1);
    assert_eq!(index.search_frontmatter_contains("n", &json("7")).len(), 1);
    assert!(index.search_frontmatter_contains("n", &json("8")).is_empty());
    assert_eq!(index.search_frontmatter("z", &json("null")).len(), 1);
    assert_eq!(index.search_frontmatter_exists("z").len(), 1);
}

/// What an index answers.
fn answers(index: &VaultIndex) -> Vec<String> {
    let mut all: Vec<String> = vec![format!("{:?}", index.stats())];
    let notes = index.notes();
    for i in 0..notes.len() {
        let path = notes.key_at(i);
        all.push(format!("{path} {:?}", notes.value_at(i).tags));
        let mut back: Vec<&str> =
            index.backlinks_to(path).iter().map(|n| n.path.as_str()).collect();
        back.sort();
        all.push(format!("{path} from {back:?}"));
        all.push(format!("{path} means {:?}", index.resolve_link(path)));
        for tag in &notes.value_at(i).tags {
            let mut with: Vec<&str> =
                index.notes_with_tag(tag).iter().map(|n| n.path.as_str()).collect();
            with.sort();
            all.push(format!("{tag} {with:?}"));
        }
    }
    all.sort();
    all
}

#[test]
fn reindexing_twice_changes_no_answer() {
    let disk = setup_vault();
    let mut index = build(&disk);
    index.reindex_file("notes/alpha.md", read(&disk, "notes/alpha.md")).unwrap();
    let once = answers(&index);
    index.reindex_file("notes/alpha.md", read(&disk, "notes/alpha.md")).unwrap();
    assert_eq!(answers(&index), once);
}

#[test]
fn removing_an_unknown_path_changes_no_answer() {
    let mut index = build(&setup_vault());
    let before = answers(&index);
    index.remove_file("notes/nothing.md");
    assert_eq!(answers(&index), before);
}

#[test]
fn renaming_is_removing_and_indexing() {
    let mut disk = setup_vault();
    let mut renamed = build(&disk);
    let mut other = build(&disk);
    rename(&mut disk, "notes/gamma.md", "notes/delta.md");
    renamed
        .rename_file("notes/gamma.md", "notes/delta.md", read(&disk, "notes/delta.md"))
        .unwrap();
    other.remove_file("notes/gamma.md");
    other.reindex_file("notes/delta.md", read(&disk, "notes/delta.md")).unwrap();
    assert_eq!(answers(&renamed), answers(&other));
}

#[test]
fn renaming_out_of_the_notes_kept_out_forgets_that() {
    let mut index = build(&setup_vault());
    let kept_out = index.stats().excluded_notes;
    index.add_excluded_file("notes/delta.md");
    assert_eq!(index.stats().excluded_notes, kept_out + 1);
    index.rename_file("notes/gamma.md", "notes/delta.md", Ok(note("# D\n"))).unwrap();
    assert_eq!(index.stats().excluded_notes, kept_out);
}

#[test]
fn spellings_of_a_path_are_the_same_note() {
    let disk = setup_vault();
    let mut index = build(&disk);
    let total = index.stats().total_notes;
    assert!(index.get_note("notes//./alpha.md").is_some());
    assert_eq!(
        index.backlinks_to("notes//alpha.md").len(),
        index.backlinks_to("notes/alpha.md").len()
    );
    assert_eq!(
        index.outgoing_links("notes/./alpha.md").len(),
        index.outgoing_links("notes/alpha.md").len()
    );
    index.reindex_file("notes//alpha.md", read(&disk, "notes/alpha.md")).unwrap();
    assert_eq!(index.stats().total_notes, total);
    index.remove_file("notes/./alpha.md");
    assert!(index.get_note("notes/alpha.md").is_none());
    assert_eq!(index.stats().total_notes, total - 1);
}

#[test]
fn removed_notes_are_gone() {
    let disk = setup_vault();
    let mut index = build(&disk);
    index.remove_file("notes/alpha.md");
    assert_eq!(index.resolve_link("notes/alpha"), None);
    assert!(index.backlinks_to("notes/alpha.md").is_empty());
    assert!(index.orphan_notes().iter().all(|n| n.path != "notes/alpha.md"));
    assert!(index.broken_links().iter().all(|(p, _)| p != "notes/alpha.md"));
    assert_eq!(index.stats().total_notes, index.notes().len());
}
