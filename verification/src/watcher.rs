//! What becomes of file system events.
use crate::error::VaultError;
use crate::exclude;
use crate::exclude::ExcludeSet;
use crate::index;
use crate::index::{IndexView, NoteFile, VaultIndex};
use crate::models::{FollowUp, FollowUpView};
use crate::path;
use crate::text;
use crate::wikilink;
use vstd::prelude::*;

verus! {

/// Whether a path below the root of the vault is in the `.obsidian` directory.
pub open spec fn in_obsidian_dir(below: Seq<Seq<char>>) -> bool {
    below.len() > 0 && below[0] == ".obsidian"@
}

/// Whether a path names a Markdown file for the watcher: its extension is `md`, or it has none
/// and ends in `.md` all the same.
pub open spec fn looks_like_note(absolute: Seq<char>) -> bool {
    match path::extension_of(path::file_name(absolute)) {
        Some(ext) => ext == "md"@,
        None => seq!['.', 'm', 'd'].is_suffix_of(absolute),
    }
}

/// The path below the root of the vault of a file whose events count.
pub open spec fn watched_path(root: Seq<char>, absolute: Seq<char>) -> Option<Seq<char>> {
    match path::components_below(root, absolute) {
        Some(below) => if !in_obsidian_dir(below) && looks_like_note(absolute) {
            Some(text::join(below, seq!['/']))
        } else {
            None
        },
        None => None,
    }
}

/// Whether the first component of a path is `.obsidian`.
fn starts_in_obsidian(below: &Vec<Vec<char>>) -> (r: bool)
    ensures
        r == in_obsidian_dir(text::texts(below@)),
{
    if below.len() == 0 {
        return false;
    }
    assert(text::texts(below@)[0] == below@[0]@);
    let name = text::to_chars(".obsidian");
    text::same_chars(&below[0], &name)
}

/// Checks if a vault-relative path is inside the `.obsidian/` config directory.
pub fn is_obsidian_dir(relative: &str) -> (r: bool)
    ensures
        r == in_obsidian_dir(path::components(relative@)),
{
    let chars = text::to_chars(relative);
    starts_in_obsidian(&path::split_components(&chars))
}

/// The extension of the file name of a path.
fn extension(absolute: &str) -> (r: Option<Vec<char>>)
    ensures
        match r {
            Some(ext) => path::extension_of(path::file_name(absolute@)) == Some(ext@),
            None => path::extension_of(path::file_name(absolute@)) is None,
        },
{
    path::extension(&path::name_of(absolute))
}

/// The path below the vault root of a file whose events count; nothing for paths outside the
/// vault, paths inside `.obsidian/`, and files that are not Markdown.
pub fn relative_to_watch(vault_root: &str, absolute: &str) -> (r: Option<String>)
    ensures
        match r {
            Some(p) => watched_path(vault_root@, absolute@) == Some(p@),
            None => watched_path(vault_root@, absolute@) is None,
        },
{
    let below = match path::split_below(vault_root, absolute) {
        Some(below) => below,
        None => {
            return None;
        },
    };
    if starts_in_obsidian(&below) {
        return None;
    }
    let note = match extension(absolute) {
        Some(ext) => {
            let md = text::to_chars("md");
            text::same_chars(&ext, &md)
        },
        None => {
            let dot_md: [char; 3] = ['.', 'm', 'd'];
            assert(dot_md@ =~= seq!['.', 'm', 'd']);
            let chars = text::to_chars(absolute);
            text::has_suffix(&chars, &dot_md)
        },
    };
    if !note {
        return None;
    }
    Some(text::from_chars(&path::join_components(&below)))
}

/// Decides whether a file system event should trigger an index update.
pub fn should_process_path(vault_root: &str, absolute: &str) -> (r: bool)
    ensures
        r == watched_path(vault_root@, absolute@) is Some,
{
    relative_to_watch(vault_root, absolute).is_some()
}

/// Whether an index is the one before after an event at a path that counts, if it does, and
/// `follow` is what the other indices have to do. `read` is what reading the file gave, or
/// nothing if there is no file any more.
pub open spec fn is_processed(
    after: IndexView,
    before: IndexView,
    patterns: Seq<Seq<char>>,
    watched: Option<Seq<char>>,
    read: Option<Result<NoteFile, VaultError>>,
    follow: FollowUpView,
) -> bool {
    match watched {
        None => follow == FollowUpView::Nothing && after == before,
        Some(p) => match read {
            None => follow == FollowUpView::Forget(p) && index::is_without(after, before, p),
            Some(read) => if exclude::any_matches(patterns, p) {
                follow == FollowUpView::Forget(p) && index::is_excluding(after, before, p)
            } else if index::note_error(read) is None {
                follow == FollowUpView::Update(p) && read is Ok && index::is_reindexed(
                    after,
                    before,
                    p,
                    read->Ok_0,
                )
            } else {
                follow == FollowUpView::Nothing && index::is_dropped(after, before, p)
            },
        },
    }
}

/// Processes a single debounced event: updates the note index, and says what the other indices
/// have to do.
///
/// `read` is what reading the file gave, or nothing if there is no file any more. An excluded
/// note is recorded as such and forgotten. A note that cannot be indexed leaves the other
/// indices alone.
pub fn process_event(
    index: &mut VaultIndex,
    exclude: &ExcludeSet,
    vault_root: &str,
    absolute: &str,
    read: Option<Result<NoteFile, VaultError>>,
) -> (r: FollowUp)
    requires
        old(index).wf(),
    ensures
        final(index).wf(),
        is_processed(
            final(index)@,
            old(index)@,
            exclude@,
            watched_path(vault_root@, absolute@),
            read,
            r@,
        ),
{
    let relative = match relative_to_watch(vault_root, absolute) {
        Some(p) => p,
        None => {
            return FollowUp::Nothing;
        },
    };
    proof {
        path::lemma_tidy_below(vault_root@, absolute@);
    }
    match read {
        None => {
            index.remove_file(&relative);
            FollowUp::Forget(relative)
        },
        Some(read) => {
            if exclude.is_excluded(&relative) {
                index.add_excluded_file(&relative);
                return FollowUp::Forget(relative);
            }
            match index.reindex_file(&relative, read) {
                Ok(_) => FollowUp::Update(relative),
                Err(_) => FollowUp::Nothing,
            }
        },
    }
}

// ---------------------------------------------------------------------------
// Laws
// ---------------------------------------------------------------------------

/// No event below `.obsidian` counts, whatever the name of the file.
pub proof fn law_obsidian_dir_is_not_watched(root: Seq<char>, absolute: Seq<char>)
    requires
        path::components_below(root, absolute) matches Some(below) && in_obsidian_dir(below),
    ensures
        watched_path(root, absolute) is None,
{
}

/// Events outside the vault do not count.
pub proof fn law_only_the_vault_is_watched(root: Seq<char>, absolute: Seq<char>)
    requires
        watched_path(root, absolute) is Some,
    ensures
        path::components(root).is_prefix_of(path::components(absolute)),
{
}

/// A file is watched as a note just where its name ends in `.md` in small letters and it is in the
/// vault, but not in its `.obsidian` directory; its path is what stands behind the root.
pub proof fn law_watched_notes(root: Seq<char>, dir: Seq<Seq<char>>, stem: Seq<char>, ext: Seq<char>)
    requires
        path::is_absolute(root),
        root.last() != '/',
        path::is_name(stem + seq!['.'] + ext),
        stem.len() > 0,
        !ext.contains('.'),
        path::all_names(dir),
        forall|i: int| 0 <= i < dir.len() ==> !(#[trigger] dir[i]).contains('\\'),
    ensures
        ({
            let name = stem + seq!['.'] + ext;
            let below = dir.push(name);
            let p = text::join(below, seq!['/']);
            let absolute = root + seq!['/'] + p;
            &&& ext == seq!['m', 'd'] && below[0] != seq!['.', 'o', 'b', 's', 'i', 'd', 'i', 'a', 'n']
                ==> watched_path(root, absolute) == Some(p)
            &&& ext != seq!['m', 'd'] ==> watched_path(root, absolute) is None
            &&& below[0] == seq!['.', 'o', 'b', 's', 'i', 'd', 'i', 'a', 'n'] ==> watched_path(
                root,
                absolute,
            ) is None
        }),
{
    reveal_strlit("md");
    reveal_strlit(".obsidian");
    assert("md"@ =~= seq!['m', 'd']);
    assert(".obsidian"@ =~= seq!['.', 'o', 'b', 's', 'i', 'd', 'i', 'a', 'n']);
    let name = stem + seq!['.'] + ext;
    let below = dir.push(name);
    let p = text::join(below, seq!['/']);
    let absolute = root + seq!['/'] + p;
    assert(path::all_names(below)) by {
        assert forall|i: int| 0 <= i < below.len() implies (#[trigger] below[i]).len() > 0
            && below[i] != seq!['.'] && below[i] != seq!['.', '.'] && !below[i].contains('/') by {
            if i < dir.len() {
                assert(dir[i] == below[i]);
            }
        }
    }
    path::law_components_below_root(root, below);
    let cs = path::components(absolute);
    assert(cs == path::components(root) + below);
    assert(cs.skip(path::components(root).len() as int) =~= below);
    assert(path::components(root).is_prefix_of(cs));
    assert(cs.last() == name);
    assert(absolute[0] == root[0]);
    assert(path::components_below(root, absolute) == Some(below));
    assert(path::file_name(absolute) == name);
    path::law_stem_and_extension(stem, ext);
}

/// An event outside the notes of the vault changes nothing. A note that is gone is taken out, one
/// that a pattern keeps out is recorded as kept out, one that could be read is indexed anew, and
/// one that could not is dropped.
pub proof fn law_events(
    after: IndexView,
    before: IndexView,
    patterns: Seq<Seq<char>>,
    p: Seq<char>,
    file: NoteFile,
    follow: FollowUpView,
)
    ensures
        is_processed(after, before, patterns, None, None, follow) ==> after == before && follow
            is Nothing,
        is_processed(after, before, patterns, None, Some(Ok(file)), follow) ==> after == before
            && follow is Nothing,
        is_processed(after, before, patterns, Some(p), None, follow) ==> !after.notes.contains_key(p)
            && follow == FollowUpView::Forget(p),
        exclude::any_matches(patterns, p) && is_processed(
            after,
            before,
            patterns,
            Some(p),
            Some(Ok(file)),
            follow,
        ) ==> !after.notes.contains_key(p) && after.excluded.contains(p) && follow
            == FollowUpView::Forget(p),
        !exclude::any_matches(patterns, p) && index::note_error(Ok(file)) is None && is_processed(
            after,
            before,
            patterns,
            Some(p),
            Some(Ok(file)),
            follow,
        ) ==> after.notes.contains_key(p) && index::describes(
            after.notes[p],
            p,
            file.content@,
            file.stat,
        ) && !after.excluded.contains(p) && follow == FollowUpView::Update(p),
        !exclude::any_matches(patterns, p) && index::note_error(Ok(file)) is Some && is_processed(
            after,
            before,
            patterns,
            Some(p),
            Some(Ok(file)),
            follow,
        ) ==> !after.notes.contains_key(p) && follow is Nothing,
        index::note_error(Ok(file)) is None <==> crate::frontmatter::front_fields(
            file.content@,
        ) is Ok,
{
    if is_processed(after, before, patterns, Some(p), Some(Ok(file)), follow) {
        if exclude::any_matches(patterns, p) {
            assert(after.excluded.last() == p);
            assert(after.excluded[after.excluded.len() - 1] == p);
        } else {
            wikilink::law_list_without_path(before.excluded, p, p);
        }
    }
}

/// A file that is called just `.md` counts as a note too.
pub proof fn law_file_without_stem_is_watched(root: Seq<char>)
    requires
        path::is_absolute(root),
    ensures
        watched_path(root, root + seq!['/', '.', 'm', 'd']) == Some(seq!['.', 'm', 'd']),
{
    reveal_strlit(".obsidian");
    let name = seq!['.', 'm', 'd'];
    let ext = seq!['m', 'd'];
    let absolute = root + seq!['/', '.', 'm', 'd'];
    assert(absolute =~= root + seq!['/'] + name);
    assert(path::is_name(name));
    path::law_file_name(root, name);
    path::law_components_of_path(root, name);
    path::law_stem_and_extension(Seq::empty(), ext);
    assert(seq!['.'] + ext =~= name);
    let cs = path::components(absolute);
    assert(cs.skip(path::components(root).len() as int) =~= seq![name]);
    assert(path::components(root).is_prefix_of(cs));
    assert(absolute[0] == root[0]);
    assert(absolute.skip(absolute.len() - 3) =~= name);
    assert(text::join(seq![name], seq!['/']) == name);
}

} // verus!
