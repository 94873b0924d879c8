//! Resolution of wikilinks.
use obsidian_vault::wikilink::build_link_resolver;

fn p(s: &str) -> String {
    s.to_string()
}

fn paths(strs: &[&str]) -> Vec<String> {
    strs.iter().map(|s| p(s)).collect()
}

// -- stem resolution --

#[test]
fn unique_stem_resolves() {
    let r = build_link_resolver(&paths(&["notes/hello.md"]));
    assert_eq!(r.resolve("hello"), Some(p("notes/hello.md")));
}

#[test]
fn ambiguous_stem_returns_none() {
    let r = build_link_resolver(&paths(&["notes/hello.md", "archive/hello.md"]));
    assert_eq!(r.resolve("hello"), None);
}

#[test]
fn ambiguous_stem_lists_all_candidates() {
    let r = build_link_resolver(&paths(&["notes/hello.md", "archive/hello.md"]));
    let mut c = r.resolve_candidates("hello");
    c.sort();
    assert_eq!(c, paths(&["archive/hello.md", "notes/hello.md"]));
}

#[test]
fn nonexistent_stem_returns_none() {
    let r = build_link_resolver(&paths(&["notes/hello.md"]));
    assert_eq!(r.resolve("missing"), None);
    assert!(r.resolve_candidates("missing").is_empty());
}

// -- path resolution --

#[test]
fn path_resolves_without_md() {
    let r = build_link_resolver(&paths(&["notes/hello.md", "archive/hello.md"]));
    assert_eq!(r.resolve("notes/hello"), Some(p("notes/hello.md")));
    assert_eq!(r.resolve("archive/hello"), Some(p("archive/hello.md")));
}

#[test]
fn path_resolves_with_md() {
    let r = build_link_resolver(&paths(&["notes/hello.md"]));
    assert_eq!(r.resolve("notes/hello.md"), Some(p("notes/hello.md")));
}

#[test]
fn path_miss_returns_none() {
    let r = build_link_resolver(&paths(&["notes/hello.md"]));
    assert_eq!(r.resolve("wrong/hello"), None);
}

// -- case insensitivity --

#[test]
fn stem_case_insensitive() {
    let r = build_link_resolver(&paths(&["Notes/Hello World.md"]));
    assert_eq!(r.resolve("hello world"), Some(p("Notes/Hello World.md")));
    assert_eq!(r.resolve("HELLO WORLD"), Some(p("Notes/Hello World.md")));
    assert_eq!(r.resolve("Hello World"), Some(p("Notes/Hello World.md")));
}

#[test]
fn path_case_insensitive() {
    let r = build_link_resolver(&paths(&["Notes/Hello.md"]));
    assert_eq!(r.resolve("notes/hello"), Some(p("Notes/Hello.md")));
    assert_eq!(r.resolve("NOTES/HELLO"), Some(p("Notes/Hello.md")));
}

// -- .md extension handling --

#[test]
fn md_extension_stripped_from_target() {
    let r = build_link_resolver(&paths(&["hello.md"]));
    assert_eq!(r.resolve("hello"), Some(p("hello.md")));
    assert_eq!(r.resolve("hello.md"), Some(p("hello.md")));
}

// -- non-markdown files --

#[test]
fn non_md_requires_extension_in_stem_lookup() {
    let r = build_link_resolver(&paths(&["assets/image.png"]));
    assert_eq!(r.resolve("image.png"), Some(p("assets/image.png")));
    assert_eq!(r.resolve("image"), None);
}

#[test]
fn non_md_path_lookup() {
    let r = build_link_resolver(&paths(&["assets/image.png"]));
    assert_eq!(r.resolve("assets/image.png"), Some(p("assets/image.png")));
}

// -- edge cases --

#[test]
fn empty_target_returns_none() {
    let r = build_link_resolver(&paths(&["notes/hello.md"]));
    assert_eq!(r.resolve(""), None);
    assert!(r.resolve_candidates("").is_empty());
}

#[test]
fn empty_resolver() {
    let r = build_link_resolver(&vec![]);
    assert_eq!(r.resolve("anything"), None);
    assert!(!r.is_resolved("anything"));
}

#[test]
fn root_level_note() {
    let r = build_link_resolver(&paths(&["note.md"]));
    assert_eq!(r.resolve("note"), Some(p("note.md")));
}

#[test]
fn deeply_nested_note() {
    let r = build_link_resolver(&paths(&["a/b/c/d/note.md"]));
    assert_eq!(r.resolve("note"), Some(p("a/b/c/d/note.md")));
    assert_eq!(r.resolve("a/b/c/d/note"), Some(p("a/b/c/d/note.md")));
}

// -- is_resolved --

#[test]
fn is_resolved_delegates_to_resolve() {
    let r = build_link_resolver(&paths(&["notes/hello.md"]));
    assert!(r.is_resolved("hello"));
    assert!(!r.is_resolved("missing"));
}

// -- mutations --

#[test]
fn add_path_makes_resolvable() {
    let mut r = build_link_resolver(&vec![]);
    assert!(!r.is_resolved("hello"));

    r.add_path(p("notes/hello.md"));
    assert_eq!(r.resolve("hello"), Some(p("notes/hello.md")));
    assert_eq!(r.resolve("notes/hello"), Some(p("notes/hello.md")));
}

#[test]
fn remove_path_clears_both_maps() {
    let mut r = build_link_resolver(&paths(&["notes/hello.md"]));
    assert!(r.is_resolved("hello"));

    r.remove_path(&p("notes/hello.md"));
    assert!(!r.is_resolved("hello"));
    assert_eq!(r.resolve("notes/hello"), None);
}

#[test]
fn remove_from_ambiguous_restores_unique() {
    let mut r = build_link_resolver(&paths(&["notes/hello.md", "archive/hello.md"]));
    assert_eq!(r.resolve("hello"), None);

    r.remove_path(&p("archive/hello.md"));
    assert_eq!(r.resolve("hello"), Some(p("notes/hello.md")));
}

#[test]
fn rename_updates_both_lookups() {
    let mut r = build_link_resolver(&paths(&["old/note.md"]));
    assert_eq!(r.resolve("old/note"), Some(p("old/note.md")));

    r.rename_path(&p("old/note.md"), p("new/note.md"));

    assert_eq!(r.resolve("old/note"), None);
    assert_eq!(r.resolve("new/note"), Some(p("new/note.md")));
    assert_eq!(r.resolve("note"), Some(p("new/note.md")));
}

#[test]
fn rename_into_ambiguous() {
    let mut r = build_link_resolver(&paths(&["a/note.md"]));
    r.add_path(p("b/note.md"));
    assert_eq!(r.resolve("note"), None);

    r.rename_path(&p("b/note.md"), p("b/other.md"));
    assert_eq!(r.resolve("note"), Some(p("a/note.md")));
    assert_eq!(r.resolve("other"), Some(p("b/other.md")));
}

#[test]
fn remove_nonexistent_is_harmless() {
    let mut r = build_link_resolver(&paths(&["notes/hello.md"]));
    r.remove_path(&p("does/not/exist.md"));
    assert!(r.is_resolved("hello"));
}

#[test]
fn backslash_normalized_in_target() {
    let r = build_link_resolver(&paths(&["notes/hello.md"]));
    assert_eq!(r.resolve("notes\\hello"), Some(p("notes/hello.md")));
}

#[test]
fn md_extension_is_optional_in_any_case() {
    let r = build_link_resolver(&paths(&["hello.md", "notes/World.MD"]));
    assert_eq!(r.resolve("HELLO.MD"), Some(p("hello.md")));
    assert_eq!(r.resolve("Hello.Md"), Some(p("hello.md")));
    assert_eq!(r.resolve("world"), Some(p("notes/World.MD")));
    assert_eq!(r.resolve("Notes\\world.md"), Some(p("notes/World.MD")));
}

#[test]
fn targets_without_a_name_mean_nothing() {
    let r = build_link_resolver(&paths(&["hello.md", ".md"]));
    for target in ["", ".md", ".MD", ".mD"] {
        assert_eq!(r.resolve(target), None);
        assert!(r.resolve_candidates(target).is_empty());
        assert!(!r.is_resolved(target));
    }
}

#[test]
fn candidates_come_in_the_order_of_the_paths() {
    let r = build_link_resolver(&paths(&["c/x.md", "a/x.md", "b/X.md", "y.md"]));
    assert_eq!(r.resolve_candidates("x"), paths(&["c/x.md", "a/x.md", "b/X.md"]));
    assert_eq!(r.resolve("x"), None);
    assert_eq!(r.resolve("y"), Some(p("y.md")));
    for path in ["c/x.md", "a/x.md", "b/X.md"] {
        assert_eq!(r.resolve(path), Some(p(path)));
    }
}

#[test]
fn paths_are_compared_by_their_components() {
    let mut r = build_link_resolver(&paths(&["notes/a.md"]));
    r.remove_path("notes//./a.md");
    assert_eq!(r.resolve("a"), None);
    r.add_path(p("notes//b.md"));
    assert_eq!(r.resolve("b"), Some(p("notes/b.md")));
    r.rename_path("./notes/b.md", p("notes/c.md"));
    assert_eq!(r.resolve("c"), Some(p("notes/c.md")));
}

#[test]
fn removing_what_was_added_restores_the_resolver() {
    let mut r = build_link_resolver(&paths(&["a/x.md"]));
    r.add_path(p("b/x.md"));
    assert_eq!(r.resolve("x"), None);
    r.remove_path("b/x.md");
    assert_eq!(r.resolve("x"), Some(p("a/x.md")));
    assert_eq!(r.resolve("b/x"), None);
}
