//! File system events.
use obsidian_vault::error::VaultError;
use obsidian_vault::exclude::ExcludeSet;
use obsidian_vault::index::{NoteFile, VaultIndex};
use obsidian_vault::models::{FileStat, FollowUp};
use obsidian_vault::watcher::{is_obsidian_dir, process_event, should_process_path};

fn vault() -> String {
    "/tmp/test-vault".to_string()
}

fn join(root: &str, name: &str) -> String {
    format!("{root}/{name}")
}

#[test]
fn filters_obsidian_directory() {
    let root = vault();
    assert!(!should_process_path(
        &root,
        &join(&root, ".obsidian/plugins/foo.json")
    ));
    assert!(!should_process_path(
        &root,
        &join(&root, ".obsidian/workspace.json")
    ));
}

#[test]
fn filters_non_markdown_files() {
    let root = vault();
    assert!(!should_process_path(&root, &join(&root, "image.png")));
    assert!(!should_process_path(&root, &join(&root, "data.json")));
    assert!(!should_process_path(
        &root,
        &join(&root, "subfolder/script.js")
    ));
}

#[test]
fn accepts_markdown_files() {
    let root = vault();
    // should_process_path checks extension; the file needn't exist for that check.
    assert!(should_process_path(&root, &join(&root, "note.md")));
    assert!(should_process_path(
        &root,
        &join(&root, "subfolder/deep/note.md")
    ));
}

#[test]
fn filters_paths_outside_vault() {
    let root = vault();
    assert!(!should_process_path(
        &root,
        "/other/place/note.md"
    ));
}

#[test]
fn obsidian_dir_detection() {
    assert!(is_obsidian_dir(".obsidian/plugins/foo.json"));
    assert!(is_obsidian_dir(".obsidian"));
    assert!(!is_obsidian_dir("notes/.obsidian/foo"));
    assert!(!is_obsidian_dir("daily/2024-01-01.md"));
}


fn note(content: &str) -> NoteFile {
    NoteFile {
        content: content.to_string(),
        stat: FileStat { size: content.len() as u64, created: None, modified: None },
    }
}

#[test]
fn events_update_the_index() {
    let root = vault();
    let none = ExcludeSet::build(vec![]).unwrap();
    let mut index = VaultIndex::empty();
    let file = join(&root, "a/note.md");

    let follow = process_event(&mut index, &none, &root, &file, Some(Ok(note("# Hi #tag"))));
    assert!(matches!(follow, FollowUp::Update(p) if p == "a/note.md"));
    assert_eq!(index.notes_with_tag("tag").len(), 1);

    let follow = process_event(&mut index, &none, &root, &file, None);
    assert!(matches!(follow, FollowUp::Forget(p) if p == "a/note.md"));
    assert!(index.get_note("a/note.md").is_none());

    let other = join(&root, "a/image.png");
    let follow = process_event(&mut index, &none, &root, &other, Some(Ok(note("x"))));
    assert!(matches!(follow, FollowUp::Nothing));
}

#[test]
fn events_of_unreadable_and_excluded_notes() {
    let root = vault();
    let archive = ExcludeSet::build(vec!["Archive/".into()]).unwrap();
    let mut index = VaultIndex::empty();

    let kept_out = join(&root, "Archive/old.md");
    let follow = process_event(&mut index, &archive, &root, &kept_out, Some(Ok(note("# Old"))));
    assert!(matches!(follow, FollowUp::Forget(p) if p == "Archive/old.md"));
    assert_eq!(index.stats().excluded_notes, 1);
    assert_eq!(index.stats().total_notes, 0);

    let broken = join(&root, "broken.md");
    let read = Some(Err(VaultError::Io("denied".to_string())));
    let follow = process_event(&mut index, &archive, &root, &broken, read);
    assert!(matches!(follow, FollowUp::Nothing));
}
