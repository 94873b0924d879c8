//! The vault: its directories, its index, and what each operation changes in them.
use crate::embeddings;
use crate::embeddings::EmbeddingTasks;
use crate::error::{ErrorView, VaultError};
use crate::exclude;
use crate::exclude::ExcludeSet;
use crate::frontmatter;
use crate::index;
use crate::index_laws;
use crate::index::{IndexView, NoteFile, ScannedFile, VaultIndex};
use crate::models::{
    FollowUp, FollowUpView, NoteMetadata, PeriodicNoteConfig, SearchMatch, SearchResult,
};
use crate::path;
use crate::pattern;
use crate::periodic;
use crate::periodic::Date;
use crate::search_utils;
use crate::text;
use crate::watcher;
use crate::wikilink::ResolverView;
use vstd::prelude::*;

verus! {

// ---------------------------------------------------------------------------
// Directories
// ---------------------------------------------------------------------------

/// The directory in a vault that holds what belongs to this program.
pub open spec fn home_of(root: Seq<char>) -> Seq<char> {
    path::joined_path(root, ".obsidian-mcp"@)
}

/// Whether both paths are known and the same, or neither is known.
pub open spec fn same_canonical(a: Option<Seq<char>>, b: Option<Seq<char>>) -> bool {
    match a {
        Some(x) => match b {
            Some(y) => path::same_place(x, y),
            None => false,
        },
        None => b is None,
    }
}

/// Where the data of a vault is kept: in the vault, unless another directory is asked for.
pub open spec fn data_of(
    root: Seq<char>,
    data_dir: Option<Seq<char>>,
    data_canonical: Option<Seq<char>>,
    home_canonical: Option<Seq<char>>,
    slug: Seq<char>,
) -> Seq<char> {
    match data_dir {
        Some(dir) => if path::same_place(dir, home_of(root)) || same_canonical(
            data_canonical,
            home_canonical,
        ) {
            home_of(root)
        } else {
            path::joined_path(path::joined_path(dir, "vaults"@), slug)
        },
        None => home_of(root),
    }
}

/// The directory in a vault that holds what belongs to this program.
pub fn mcp_home_path(root: &str) -> (r: String)
    ensures
        r@ == home_of(root@),
{
    path::join_path(root, ".obsidian-mcp")
}

/// Where the data of a vault is kept: in the vault, or in a directory of its own below the one
/// that is asked for. Asking for the directory in the vault is the same as asking for none. The
/// canonical forms are those of the directory that is asked for and of the one in the vault,
/// where they exist.
pub fn mcp_data_path(
    root: &str,
    data_dir: Option<&str>,
    data_canonical: Option<&str>,
    home_canonical: Option<&str>,
    slug: &str,
) -> (r: String)
    ensures
        r@ == data_of(
            root@,
            exclude::option_str(data_dir),
            exclude::option_str(data_canonical),
            exclude::option_str(home_canonical),
            slug@,
        ),
{
    let home = mcp_home_path(root);
    match data_dir {
        Some(dir) => {
            let same = match data_canonical {
                Some(x) => match home_canonical {
                    Some(y) => path::is_same_path(x, y),
                    None => false,
                },
                None => home_canonical.is_none(),
            };
            if path::is_same_path(dir, &home) || same {
                home
            } else {
                path::join_path(&path::join_path(dir, "vaults"), slug)
            }
        },
        None => home,
    }
}

/// Whether an embedding cache in the old place is copied to the new one.
pub fn copies_old_cache(old_is_file: bool, new_exists: bool) -> (r: bool)
    ensures
        r == (old_is_file && !new_exists),
{
    old_is_file && !new_exists
}

// ---------------------------------------------------------------------------
// The vault
// ---------------------------------------------------------------------------

/// What is known of an open vault.
pub struct Vault {
    root: String,
    mcp_home: String,
    mcp_data: String,
    exclude: ExcludeSet,
    index: VaultIndex,
    tasks: EmbeddingTasks,
}

/// The mathematical form of a [`Vault`].
pub struct VaultView {
    pub root: Seq<char>,
    pub mcp_home: Seq<char>,
    pub mcp_data: Seq<char>,
    /// The patterns of notes that are kept out of the index.
    pub exclude: Seq<Seq<char>>,
    pub index: IndexView,
    /// The latest embedding task of each note.
    pub tasks: Map<Seq<char>, u64>,
}

impl View for Vault {
    type V = VaultView;

    closed spec fn view(&self) -> VaultView {
        VaultView {
            root: self.root@,
            mcp_home: self.mcp_home@,
            mcp_data: self.mcp_data@,
            exclude: self.exclude@,
            index: self.index@,
            tasks: self.tasks@,
        }
    }
}

/// Whether directories and patterns of a vault are as before.
pub open spec fn same_vault(after: VaultView, before: VaultView) -> bool {
    &&& after.root == before.root
    &&& after.mcp_home == before.mcp_home
    &&& after.mcp_data == before.mcp_data
    &&& after.exclude == before.exclude
}

/// Whether an index is the one before after a note was moved to where notes are kept out.
pub open spec fn is_moved_out(after: IndexView, before: IndexView, from: Seq<char>, to: Seq<char>)
    -> bool {
    exists|mid: IndexView| #[trigger]
        index::is_without(mid, before, from) && index::is_excluding(after, mid, to)
}

/// An embedding that is to be computed.
#[derive(Debug)]
pub struct EmbeddingJob {
    /// The number of the task.
    pub generation: u64,
    /// The text to embed.
    pub text: String,
}

/// What a move asks of the indices other than the note index.
#[derive(Debug)]
pub struct MoveFollowUp {
    /// The path to forget.
    pub forget: String,
    /// The path to index anew, unless the note is kept out now.
    pub update: Option<String>,
}

impl Vault {
    /// The index and the tasks are well-formed.
    pub closed spec fn wf(&self) -> bool {
        self.index.wf() && self.tasks.wf()
    }

    /// Opens a vault: merges the patterns of notes that are kept out, and builds the index from
    /// the files that a walk through the vault came upon.
    ///
    /// `home_ignore` and `data_ignore` are what the ignore files of the two directories hold;
    /// the second is missing where both directories are the same.
    pub fn open(
        root: &str,
        mcp_data: String,
        home_ignore: Option<&str>,
        data_ignore: Option<&str>,
        exclude_patterns: &Vec<String>,
        files: &Vec<ScannedFile>,
    ) -> (r: Result<Self, VaultError>)
        ensures
            ({
                let raw = exclude::merged(
                    exclude::option_str(home_ignore),
                    exclude::option_str(data_ignore),
                    text::strings(exclude_patterns@),
                );
                let patterns = exclude::accepted(raw, raw.len());
                match r {
                    Ok(v) => {
                        &&& exclude::glob_set_error(patterns) is None
                        &&& v.wf()
                        &&& v@.root == root@
                        &&& v@.mcp_home == home_of(root@)
                        &&& v@.mcp_data == mcp_data@
                        &&& v@.exclude == patterns
                        &&& index::holds_scanned(v@.index.notes, files@, patterns, files@.len())
                        &&& v@.index.tags == index::scanned_tags(files@, patterns, files@.len())
                        &&& v@.index.excluded == index::scanned_excluded(
                            files@,
                            patterns,
                            files@.len(),
                        )
                        &&& v@.index.other_files == index::scanned_others(
                            files@,
                            patterns,
                            files@.len(),
                        )
                        &&& v@.index.other_bytes == index::scanned_bytes(
                            files@,
                            patterns,
                            files@.len(),
                        )
                        &&& v@.index.links == ResolverView::of_paths(v@.index.order)
                        &&& v@.index.up_to_date()
                        &&& v@.tasks == Map::<Seq<char>, u64>::empty()
                    },
                    Err(e) => match exclude::glob_set_error(patterns) {
                        Some(m) => e@ == ErrorView::Other("glob set compile: "@ + m),
                        None => false,
                    },
                }
            }),
    {
        let patterns = exclude::load_ignore_patterns(home_ignore, data_ignore, exclude_patterns);
        assert(text::strings(patterns@).len() == patterns@.len());
        let set = match ExcludeSet::build(patterns) {
            Ok(set) => set,
            Err(e) => {
                return Err(e);
            },
        };
        let index = VaultIndex::build(files, &set);
        Ok(
            Vault {
                root: root.to_owned(),
                mcp_home: mcp_home_path(root),
                mcp_data,
                exclude: set,
                index,
                tasks: EmbeddingTasks::new(),
            },
        )
    }

    /// Vault root path.
    pub fn root(&self) -> (r: &str)
        ensures
            r@ == self@.root,
    {
        &self.root
    }

    /// The directory in the vault that holds what belongs to this program.
    pub fn mcp_home(&self) -> (r: &str)
        ensures
            r@ == self@.mcp_home,
    {
        &self.mcp_home
    }

    /// Where the data of the vault is kept.
    pub fn mcp_data(&self) -> (r: &str)
        ensures
            r@ == self@.mcp_data,
    {
        &self.mcp_data
    }

    /// Active path exclusion set.
    pub fn exclude(&self) -> (r: &ExcludeSet)
        ensures
            r@ == self@.exclude,
    {
        &self.exclude
    }

    /// The note index.
    pub fn index(&self) -> (r: &VaultIndex)
        requires
            self.wf(),
        ensures
            r@ == self@.index,
            r.wf(),
    {
        &self.index
    }

    /// Takes in that the note at a path was written, given what reading it gave.
    ///
    /// A note that is kept out of the index is recorded as such, and its embedding tasks are
    /// forgotten.
    pub fn reindex(&mut self, path: &str, read: Result<NoteFile, VaultError>) -> (r: Result<
        FollowUp,
        VaultError,
    >)
        requires
            old(self).wf(),
        ensures
            final(self).wf(),
            same_vault(final(self)@, old(self)@),
            if exclude::any_matches(old(self)@.exclude, path::tidy(path@)) {
                &&& r matches Ok(f) && f@ == FollowUpView::Forget(path::tidy(path@))
                &&& index::is_excluding(
                    final(self)@.index,
                    old(self)@.index,
                    path::tidy(path@),
                )
                &&& final(self)@.tasks == old(self)@.tasks.remove(path::tidy(path@))
            } else {
                &&& final(self)@.tasks == old(self)@.tasks
                &&& match r {
                    Ok(f) => f@ == FollowUpView::Update(path::tidy(path@)) && index::note_error(
                        read,
                    ) is None && read is Ok && index::is_reindexed(
                        final(self)@.index,
                        old(self)@.index,
                        path::tidy(path@),
                        read->Ok_0,
                    ),
                    Err(e) => index::note_error(read) == Some(e@) && index::is_dropped(
                        final(self)@.index,
                        old(self)@.index,
                        path::tidy(path@),
                    ),
                }
            },
    {
        proof {
            path::law_tidy_path_is_the_path(path@, path@);
        }
        let path = path::tidied(path);
        if self.exclude.is_excluded(&path) {
            self.index.add_excluded_file(&path);
            self.tasks.clear_embedding_generation(&path);
            return Ok(FollowUp::Forget(path));
        }
        match self.index.reindex_file(&path, read) {
            Ok(_) => Ok(FollowUp::Update(path)),
            Err(e) => Err(e),
        }
    }

    /// Takes in that the note at a path was deleted.
    pub fn delete_note(&mut self, path: &str) -> (r: FollowUp)
        requires
            old(self).wf(),
        ensures
            final(self).wf(),
            same_vault(final(self)@, old(self)@),
            r@ == FollowUpView::Forget(path::tidy(path@)),
            index::is_without(final(self)@.index, old(self)@.index, path::tidy(path@)),
            final(self)@.tasks == old(self)@.tasks.remove(path::tidy(path@)),
    {
        self.index.remove_file(path);
        self.tasks.clear_embedding_generation(path);
        FollowUp::Forget(path::tidied(path))
    }

    /// Takes in that a note was moved, given what reading it at its new path gave.
    pub fn move_note(&mut self, from: &str, to: &str, read: Result<NoteFile, VaultError>) -> (r:
        Result<MoveFollowUp, VaultError>)
        requires
            old(self).wf(),
        ensures
            final(self).wf(),
            same_vault(final(self)@, old(self)@),
            if exclude::any_matches(old(self)@.exclude, path::tidy(to@)) {
                &&& r matches Ok(f) && f.forget@ == path::tidy(from@) && f.update is None
                &&& is_moved_out(
                    final(self)@.index,
                    old(self)@.index,
                    path::tidy(from@),
                    path::tidy(to@),
                )
                &&& final(self)@.tasks == old(self)@.tasks.remove(path::tidy(from@))
            } else {
                match r {
                    Ok(f) => {
                        &&& f.forget@ == path::tidy(from@)
                        &&& crate::models::option_text(f.update) == Some(path::tidy(to@))
                        &&& index::note_error(read) is None && read is Ok
                        &&& index::is_renamed(
                            final(self)@.index,
                            old(self)@.index,
                            path::tidy(from@),
                            path::tidy(to@),
                            read->Ok_0,
                        )
                        &&& final(self)@.tasks == old(self)@.tasks.remove(path::tidy(from@))
                    },
                    Err(e) => {
                        &&& index::note_error(read) == Some(e@)
                        &&& index::is_half_renamed(
                            final(self)@.index,
                            old(self)@.index,
                            path::tidy(from@),
                            path::tidy(to@),
                        )
                        &&& final(self)@.tasks == old(self)@.tasks
                    },
                }
            },
            r is Ok && path::tidy(from@) != path::tidy(to@) ==> {
                &&& !final(self)@.index.notes.contains_key(path::tidy(from@))
                &&& final(self)@.index.notes.contains_key(path::tidy(to@))
                    <==> !exclude::any_matches(old(self)@.exclude, path::tidy(to@))
            },
    {
        let ghost before = self.index@;
        proof {
            path::law_tidy_path_is_the_path(from@, to@);
            path::law_tidy_path_is_the_path(to@, from@);
        }
        let from = path::tidied(from);
        let to = path::tidied(to);
        if self.exclude.is_excluded(&to) {
            self.index.remove_file(&from);
            let ghost mid = self.index@;
            self.index.add_excluded_file(&to);
            self.tasks.clear_embedding_generation(&from);
            assert(index::is_without(mid, before, from@));
            assert(is_moved_out(self.index@, before, from@, to@));
            return Ok(MoveFollowUp { forget: from, update: None });
        }
        match self.index.rename_file(&from, &to, read) {
            Ok(_) => {
                self.tasks.clear_embedding_generation(&from);
                Ok(MoveFollowUp { forget: from, update: Some(to) })
            },
            Err(e) => Err(e),
        }
    }

    /// Takes in an event of the file system, given what reading the file gave, or nothing if
    /// there is no file any more.
    pub fn process_event(&mut self, absolute: &str, read: Option<Result<NoteFile, VaultError>>)
        -> (r: FollowUp)
        requires
            old(self).wf(),
        ensures
            final(self).wf(),
            same_vault(final(self)@, old(self)@),
            final(self)@.tasks == old(self)@.tasks,
            watcher::is_processed(
                final(self)@.index,
                old(self)@.index,
                old(self)@.exclude,
                watcher::watched_path(old(self)@.root, absolute@),
                read,
                r@,
            ),
    {
        watcher::process_event(&mut self.index, &self.exclude, &self.root, absolute, read)
    }

    /// The metadata of the note at a path.
    pub fn get_note_metadata(&self, path: &str) -> (r: Result<&NoteMetadata, VaultError>)
        requires
            self.wf(),
        ensures
            match r {
                Ok(m) => self@.index.notes.contains_key(path::tidy(path@)) && *m
                    == self@.index.notes[path::tidy(path@)],
                Err(e) => !self@.index.notes.contains_key(path::tidy(path@)) && e@
                    == ErrorView::NoteNotFound(path@),
            },
    {
        match self.index.get_note(path) {
            Some(m) => Ok(m),
            None => Err(VaultError::NoteNotFound(path.to_owned())),
        }
    }

    /// Starts an embedding task for a note, given its content where it could be read. There is
    /// nothing to embed for a note that could not be read or is not indexed; the earlier tasks
    /// of the note are outdated all the same.
    pub fn reindex_embedding(&mut self, path: &str, content: Option<&str>) -> (r: Option<
        EmbeddingJob,
    >)
        requires
            old(self).wf(),
        ensures
            final(self).wf(),
            same_vault(final(self)@, old(self)@),
            final(self)@.index == old(self)@.index,
            final(self)@.tasks == old(self)@.tasks.insert(
                path::tidy(path@),
                embeddings::next_generation(old(self)@.tasks, path::tidy(path@)),
            ),
            match content {
                Some(c) => if old(self)@.index.notes.contains_key(path::tidy(path@)) {
                    let note = old(self)@.index.notes[path::tidy(path@)];
                    r matches Some(job) && job.generation == embeddings::next_generation(
                        old(self)@.tasks,
                        path::tidy(path@),
                    ) && job.text@ == embeddings::embed_text(
                        note.title@,
                        embeddings::heading_texts(note.headings@),
                        frontmatter::body_of(c@),
                    )
                } else {
                    r is None
                },
                None => r is None,
            },
    {
        let generation: u64 = self.tasks.next_embedding_generation(path);
        match content {
            Some(c) => match self.index.get_note(path) {
                Some(meta) => Some(
                    EmbeddingJob { generation, text: embeddings::note_embed_text(meta, c) },
                ),
                None => None,
            },
            None => None,
        }
    }

    /// Whether the result of an embedding task may be stored.
    pub fn should_commit_embedding_task(&self, path: &str, generation: u64) -> (r: bool)
        requires
            self.wf(),
        ensures
            r == embeddings::may_commit(
                self@.tasks,
                path::tidy(path@),
                generation,
                self@.index.notes.contains_key(path::tidy(path@)),
            ),
    {
        let indexed = self.index.get_note(path).is_some();
        self.tasks.should_commit_embedding_task(path, generation, indexed)
    }
}

// ---------------------------------------------------------------------------
// Notes
// ---------------------------------------------------------------------------

/// The content of a new note, or an error where there is a file already.
pub fn create_note(
    path: &str,
    occupied: bool,
    content: &str,
    frontmatter: Option<&serde_json::Value>,
) -> (r: Result<String, VaultError>)
    ensures
        match r {
            Ok(t) => !occupied && t@ == frontmatter::rebuilt(
                match frontmatter {
                    Some(v) => Some(crate::json::json_view(*v)),
                    None => None,
                },
                content@,
            ),
            Err(e) => occupied && e@ == ErrorView::AlreadyExists(path@),
        },
{
    if occupied {
        return Err(VaultError::AlreadyExists(path.to_owned()));
    }
    Ok(frontmatter::rebuild_content(frontmatter, content))
}

/// A note with content between its front matter and its body.
pub open spec fn prepended(existing: Seq<char>, content: Seq<char>) -> Seq<char> {
    frontmatter::header_of(existing) + content + frontmatter::body_of(existing)
}

/// Prepends content to a note: after its front matter, or at the start if it has none.
pub fn prepend_note(existing: &str, content: &str) -> (r: String)
    ensures
        r@ == prepended(existing@, content@),
{
    proof {
        frontmatter::law_note_is_header_and_body(existing@);
    }
    let all = text::to_chars(existing);
    let body = text::to_chars(frontmatter::get_body(existing));
    let n = all.len() - body.len();
    let mut out = text::copy_chars(vstd::slice::slice_subrange(&all, 0, n));
    assert(out@ =~= frontmatter::header_of(existing@));
    let more = text::to_chars(content);
    text::append_chars(&mut out, &more);
    text::append_chars(&mut out, &body);
    text::from_chars(&out)
}

/// Prepending leaves the front matter and the old body as they were, with the new content
/// between them, wherever the front matter ends with a line end.
pub proof fn law_prepending_keeps_front_matter_and_body(existing: Seq<char>, content: Seq<char>)
    requires
        frontmatter::header_of(existing).len() > 0,
        frontmatter::header_of(existing).last() == '\n',
    ensures
        frontmatter::header_of(prepended(existing, content)) == frontmatter::header_of(existing),
        frontmatter::body_of(prepended(existing, content)) == content + frontmatter::body_of(
            existing,
        ),
        frontmatter::raw_yaml(prepended(existing, content)) == frontmatter::raw_yaml(existing),
{
    let h = frontmatter::header_of(existing);
    let b = frontmatter::body_of(existing);
    let new = prepended(existing, content);
    frontmatter::law_note_is_header_and_body(existing);
    text::lemma_raw_lines_add(h, b);
    text::lemma_raw_lines_add(h, content + b);
    assert(new =~= h + (content + b));
    let hs = text::raw_lines(h);
    let old_lines = text::raw_lines(existing);
    let new_lines = text::raw_lines(new);
    assert(old_lines == hs + text::raw_lines(b));
    assert(new_lines == hs + text::raw_lines(content + b));
    let k = frontmatter::closing_line(existing)->Some_0;
    assert(frontmatter::closing_line(existing) == Some(k));
    text::lemma_raw_lines_take(existing, k + 1);
    assert(hs.len() == k + 1);
    assert forall|i: int| 0 <= i <= k implies old_lines[i] == new_lines[i] by {
        assert(old_lines[i] == hs[i]);
        assert(new_lines[i] == hs[i]);
    }
    frontmatter::lemma_delimiter_from(old_lines, 1);
    assert forall|i: int| 1 <= i < k implies !frontmatter::is_delimiter(
        #[trigger] new_lines[i],
    ) by {
        assert(old_lines[i] == new_lines[i]);
    }
    assert(old_lines[k as int] == new_lines[k as int]);
    frontmatter::lemma_delimiter_found(new_lines, 1, k);
    assert(frontmatter::closing_line(new) == Some(k));
    assert(old_lines.take(k as int + 1) =~= new_lines.take(k as int + 1));
    assert(old_lines.subrange(1, k as int) =~= new_lines.subrange(1, k as int));
    assert(frontmatter::header_of(new) == h);
    assert(new.skip(h.len() as int) =~= content + b);
}

// ---------------------------------------------------------------------------
// Searches
// ---------------------------------------------------------------------------

/// The first results of a search.
pub fn first_results(results: Vec<SearchResult>, max_results: usize) -> (r: Vec<SearchResult>)
    ensures
        r@ == if results@.len() <= max_results {
            results@
        } else {
            results@.take(max_results as int)
        },
{
    let mut results = results;
    results.truncate(max_results);
    results
}

/// The places in a note where words of a query occur, each with its context; none if the note
/// could not be read, no context is asked for, or the query has no words.
pub fn word_matches(words: Option<&regex::Regex>, content: Option<&str>, context_len: usize) -> (r:
    Vec<SearchMatch>)
    ensures
        index::match_views(r@) == match words {
            Some(re) => match content {
                Some(c) => if context_len > 0 {
                    index::matches_in_context(
                        c@,
                        index::whole_matches(
                            pattern::captures_of(pattern::regex_pattern(*re), c@),
                        ),
                        context_len as int,
                    )
                } else {
                    Seq::empty()
                },
                None => Seq::empty(),
            },
            None => Seq::empty(),
        },
{
    if let Some(re) = words {
        if let Some(c) = content {
            if context_len > 0 {
                return index::search_one(re, c, context_len);
            }
        }
    }
    let r: Vec<SearchMatch> = Vec::new();
    assert(index::match_views(r@) =~= Seq::empty());
    r
}

/// The error of a semantic search without a model or a store.
pub open spec fn semantic_error(has_model: bool, has_store: bool) -> Option<ErrorView> {
    if !has_model {
        Some(ErrorView::Embedding("embeddings not enabled (OBSIDIAN_EMBEDDINGS=false)"@))
    } else if !has_store {
        Some(ErrorView::Embedding("embedding store not initialized"@))
    } else {
        None
    }
}

/// Whether a semantic search can be made.
pub fn check_semantic(has_model: bool, has_store: bool) -> (r: Result<(), VaultError>)
    ensures
        match r {
            Ok(_) => semantic_error(has_model, has_store) is None,
            Err(e) => semantic_error(has_model, has_store) == Some(e@),
        },
{
    if !has_model {
        return Err(
            VaultError::Embedding("embeddings not enabled (OBSIDIAN_EMBEDDINGS=false)".to_owned()),
        );
    }
    if !has_store {
        return Err(VaultError::Embedding("embedding store not initialized".to_owned()));
    }
    Ok(())
}

/// How many hits of the full-text index a hybrid search ranks anew: at least as many as are
/// asked for. Nothing is looked for if the query is empty; else the full-text index and the
/// embeddings must be there.
pub fn plan_hybrid(
    query: &str,
    has_tantivy: bool,
    has_model: bool,
    has_store: bool,
    top_k: usize,
    prefetch_count: usize,
) -> (r: Result<Option<usize>, VaultError>)
    ensures
        if query@.len() == 0 {
            r == Ok::<Option<usize>, VaultError>(None)
        } else if !has_tantivy {
            r matches Err(e) && e@ == ErrorView::Other(
                "hybrid search requires Tantivy (set OBSIDIAN_TANTIVY=true)"@,
            )
        } else {
            match semantic_error(has_model, has_store) {
                Some(m) => r matches Err(e) && e@ == m,
                None => r == Ok::<Option<usize>, VaultError>(
                    Some(
                        if prefetch_count >= top_k {
                            prefetch_count
                        } else {
                            top_k
                        },
                    ),
                ),
            }
        },
{
    let chars = text::to_chars(query);
    if chars.len() == 0 {
        return Ok(None);
    }
    if !has_tantivy {
        return Err(
            VaultError::Other(
                "hybrid search requires Tantivy (set OBSIDIAN_TANTIVY=true)".to_owned(),
            ),
        );
    }
    match check_semantic(has_model, has_store) {
        Ok(_) => {},
        Err(e) => {
            return Err(e);
        },
    }
    if prefetch_count >= top_k {
        Ok(Some(prefetch_count))
    } else {
        Ok(Some(top_k))
    }
}

// ---------------------------------------------------------------------------
// Periodic notes
// ---------------------------------------------------------------------------

/// The template that a new periodic note is made from: the one that is configured, unless
/// content is given.
pub fn template_to_read<'a>(config: &'a PeriodicNoteConfig, has_content: bool) -> (r: Option<
    &'a String,
>)
    ensures
        match config.template {
            Some(t) => if t@.len() > 0 && !has_content {
                r matches Some(p) && *p == t
            } else {
                r is None
            },
            None => r is None,
        },
{
    if has_content {
        return None;
    }
    match &config.template {
        Some(t) => {
            let chars = text::to_chars(t);
            if chars.len() > 0 {
                Some(t)
            } else {
                None
            }
        },
        None => None,
    }
}

/// The content of a new periodic note, or an error where there is a file already.
///
/// Content that is given is taken as it is. Else the template is expanded, with the stem of the
/// file as title; a note without a template, or with one that is missing, is empty. `None` where
/// the template asks for what a date does not have.
pub fn create_periodic_note(
    path: &str,
    occupied: bool,
    content: Option<&str>,
    template: Option<Result<String, VaultError>>,
    date: &Date,
    time: &str,
) -> (r: Result<Option<String>, VaultError>)
    ensures
        if occupied {
            r matches Err(e) && e@ == ErrorView::AlreadyExists(path@)
        } else {
            match content {
                Some(c) => r matches Ok(Some(t)) && t@ == c@,
                None => match template {
                    None => r matches Ok(Some(t)) && t@.len() == 0,
                    Some(Ok(t)) => r matches Ok(o) && crate::models::option_text(o)
                        == periodic::expanded(t@, *date, path::file_stem(path@), time@),
                    Some(Err(e)) => if e is NoteNotFound {
                        r matches Ok(Some(t)) && t@.len() == 0
                    } else {
                        r matches Err(f) && f == e
                    },
                },
            }
        },
{
    if occupied {
        return Err(VaultError::AlreadyExists(path.to_owned()));
    }
    if let Some(c) = content {
        return Ok(Some(c.to_owned()));
    }
    match template {
        None => Ok(Some(String::new())),
        Some(Ok(t)) => {
            let title = path::stem(path);
            Ok(periodic::expand_template_string(&t, date, &title, time))
        },
        Some(Err(e)) => match e {
            VaultError::NoteNotFound(_) => Ok(Some(String::new())),
            other => Err(other),
        },
    }
}

// ---------------------------------------------------------------------------
// Laws
// ---------------------------------------------------------------------------

/// A note that is written or moved to where notes are kept out is not in the index afterwards,
/// under its new path or its old one, and is recorded as kept out.
pub proof fn law_excluded_note_stays_out(
    before: IndexView,
    after: IndexView,
    from: Seq<char>,
    to: Seq<char>,
)
    ensures
        index::is_excluding(after, before, to) ==> !after.notes.contains_key(to)
            && after.excluded.contains(to),
        is_moved_out(after, before, from, to) ==> !after.notes.contains_key(to)
            && !after.notes.contains_key(from) && after.excluded.contains(to),
{
    if index::is_excluding(after, before, to) {
        assert(after.excluded.last() == to);
        assert(after.excluded[after.excluded.len() - 1] == to);
    }
    if is_moved_out(after, before, from, to) {
        let mid = choose|mid: IndexView| #[trigger]
            index::is_without(mid, before, from) && index::is_excluding(after, mid, to);
        assert(after.excluded[after.excluded.len() - 1] == to);
    }
}

/// Whether an index is the one before after a note was moved: to where notes are kept out, or
/// under its new path.
pub open spec fn is_moved(
    after: IndexView,
    before: IndexView,
    patterns: Seq<Seq<char>>,
    from: Seq<char>,
    to: Seq<char>,
    file: NoteFile,
) -> bool {
    if exclude::any_matches(patterns, to) {
        is_moved_out(after, before, from, to)
    } else {
        index::is_renamed(after, before, from, to, file)
    }
}

/// After a note was moved to another path it is not in the index under its old path; under its
/// new path it is there, as it was read, just where no pattern keeps it out, and else it is
/// recorded as kept out. All other notes are as they were.
pub proof fn law_moved_note_is_at_its_new_path(
    before: IndexView,
    after: IndexView,
    patterns: Seq<Seq<char>>,
    from: Seq<char>,
    to: Seq<char>,
    file: NoteFile,
    q: Seq<char>,
)
    requires
        from != to,
        is_moved(after, before, patterns, from, to, file),
    ensures
        !after.notes.contains_key(from),
        after.notes.contains_key(to) <==> !exclude::any_matches(patterns, to),
        !exclude::any_matches(patterns, to) ==> index::describes(
            after.notes[to],
            to,
            file.content@,
            file.stat,
        ),
        exclude::any_matches(patterns, to) ==> after.excluded.contains(to),
        q != from && q != to ==> (after.notes.contains_key(q) <==> before.notes.contains_key(q)),
        q != from && q != to && before.notes.contains_key(q) ==> after.notes[q]
            == before.notes[q],
{
    if exclude::any_matches(patterns, to) {
        law_excluded_note_stays_out(before, after, from, to);
    }
}

/// Whether no indexed note is matched by one of some patterns.
pub open spec fn holds_none_of(v: IndexView, patterns: Seq<Seq<char>>) -> bool {
    forall|p: Seq<char>| #[trigger] v.notes.contains_key(p) ==> !exclude::any_matches(patterns, p)
}

/// A note that is kept out is never indexed: an index that was built holds none, and writing,
/// deleting, moving and any event of the file system bring none into it.
pub proof fn law_no_excluded_note_is_indexed(
    before: IndexView,
    after: IndexView,
    patterns: Seq<Seq<char>>,
    files: Seq<ScannedFile>,
    p: Seq<char>,
    to: Seq<char>,
    file: NoteFile,
    watched: Option<Seq<char>>,
    read: Option<Result<NoteFile, VaultError>>,
    follow: FollowUpView,
)
    ensures
        index::holds_scanned(after.notes, files, patterns, files.len()) ==> holds_none_of(
            after,
            patterns,
        ),
        holds_none_of(before, patterns) ==> {
            &&& index::is_without(after, before, p) ==> holds_none_of(after, patterns)
            &&& index::is_excluding(after, before, p) ==> holds_none_of(after, patterns)
            &&& index::is_dropped(after, before, p) ==> holds_none_of(after, patterns)
            &&& index::is_half_renamed(after, before, p, to) ==> holds_none_of(after, patterns)
            &&& is_moved_out(after, before, p, to) ==> holds_none_of(after, patterns)
            &&& !exclude::any_matches(patterns, p) && index::is_reindexed(after, before, p, file)
                ==> holds_none_of(after, patterns)
            &&& !exclude::any_matches(patterns, to) && index::is_renamed(
                after,
                before,
                p,
                to,
                file,
            ) ==> holds_none_of(after, patterns)
            &&& watcher::is_processed(after, before, patterns, watched, read, follow)
                ==> holds_none_of(after, patterns)
        },
{
    if index::holds_scanned(after.notes, files, patterns, files.len()) {
        assert forall|q: Seq<char>| #[trigger]
            after.notes.contains_key(q) implies !exclude::any_matches(patterns, q) by {
            if exclude::any_matches(patterns, q) {
                index_laws::law_excluded_notes_are_not_indexed(after.notes, files, patterns, q);
            }
        }
    }
}

/// The settings of a vault lie in `.obsidian-mcp` below its root. So does its data, unless a data
/// directory is named that is another place; there each vault has its own directory. (Two
/// directories that are both not there yet are taken for one place.)
pub proof fn law_directories_of_vault(root: Seq<char>, dir: Seq<char>, slug: Seq<char>, canonical: Seq<char>)
    requires
        root.len() > 0,
        root.last() != '/',
        dir.len() > 0,
        dir.last() != '/',
        slug.len() > 0,
        slug[0] != '/',
    ensures
        home_of(root) == root + seq!['/'] + ".obsidian-mcp"@,
        data_of(root, None, None, None, slug) == home_of(root),
        data_of(root, Some(dir), None, None, slug) == home_of(root),
        path::same_place(dir, home_of(root)) ==> data_of(
            root,
            Some(dir),
            Some(canonical),
            None,
            slug,
        ) == home_of(root),
        data_of(root, Some(dir), Some(canonical), Some(canonical), slug) == home_of(root),
        !path::same_place(dir, home_of(root)) ==> data_of(
            root,
            Some(dir),
            Some(canonical),
            None,
            slug,
        ) == dir + seq!['/'] + "vaults"@ + seq!['/'] + slug,
        !path::same_place(dir, home_of(root)) ==> data_of(
            root,
            Some(dir),
            None,
            Some(canonical),
            slug,
        ) == dir + seq!['/'] + "vaults"@ + seq!['/'] + slug,
        forall|other: Seq<char>|
            !path::same_place(dir, home_of(root)) && path::components(other) != path::components(
                canonical,
            ) ==> #[trigger] data_of(root, Some(dir), Some(canonical), Some(other), slug) == dir
                + seq!['/'] + "vaults"@ + seq!['/'] + slug,
{
    reveal_strlit(".obsidian-mcp");
    reveal_strlit("vaults");
    path::law_joined_paths(root, ".obsidian-mcp"@);
    path::law_joined_paths(dir, "vaults"@);
    path::law_joined_paths(dir + seq!['/'] + "vaults"@, slug);
}

/// Text that is put in front of a note goes behind its front matter and before all else that the
/// note holds; a note without front matter starts with it.
pub proof fn law_prepended_text(existing: Seq<char>, content: Seq<char>)
    ensures
        exists|a: Seq<char>, b: Seq<char>|
            existing == #[trigger] (a + b) && prepended(existing, content) == a + content + b && a
                == frontmatter::header_of(existing),
        frontmatter::raw_yaml(existing) is None ==> prepended(existing, content) == content
            + existing,
{
    frontmatter::law_note_is_header_and_body(existing);
    let a = frontmatter::header_of(existing);
    let b = frontmatter::body_of(existing);
    assert(existing == a + b);
    if frontmatter::raw_yaml(existing) is None {
        assert(a.len() == 0) by {
            assert((a + b).len() == b.len());
        }
        assert(a + content + b =~= content + existing);
    }
}

/// A search by meaning needs a model and a store, and is refused just where one of them is
/// missing.
pub proof fn law_search_by_meaning(has_model: bool, has_store: bool)
    ensures
        semantic_error(has_model, has_store) is None <==> has_model && has_store,
        semantic_error(has_model, has_store) matches Some(e) ==> e is Embedding,
        semantic_error(false, has_store) == semantic_error(false, !has_store),
{
}

} // verus!
