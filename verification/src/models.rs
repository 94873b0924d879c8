//! Plain data of the vault: requests, headings, links, notes and search results.
use vstd::prelude::*;

verus! {

/// Where new content goes relative to its target.
#[derive(Clone, Copy, Debug, PartialEq, Eq, Structural)]
pub enum PatchOperation {
    Append,
    Prepend,
    Replace,
}

/// What part of a note a patch names.
#[derive(Clone, Copy, Debug, PartialEq, Eq, Structural)]
pub enum PatchTargetType {
    Heading,
    Block,
    Frontmatter,
}

/// A change to one part of a note.
#[derive(Clone, Debug)]
pub struct PatchRequest {
    pub operation: PatchOperation,
    pub target_type: PatchTargetType,
    pub target: String,
    pub content: String,
}

/// The stretch of time that a periodic note is about.
#[derive(Clone, Copy, Debug, PartialEq, Eq, Structural)]
pub enum NotePeriod {
    Daily,
    Weekly,
    Monthly,
    Quarterly,
    Yearly,
}

/// Where the notes of a period are kept and how they are named.
#[derive(Clone, Debug)]
pub struct PeriodicNoteConfig {
    /// A Moment.js date format.
    pub format: String,
    pub folder: Option<String>,
    pub template: Option<String>,
}

/// A heading of a note.
#[derive(Clone, Debug)]
pub struct Heading {
    pub level: u8,
    pub text: String,
    /// The line on which the heading starts, from 0.
    pub line: usize,
}

/// The mathematical form of a [`Heading`].
pub struct HeadingView {
    pub level: u8,
    pub text: Seq<char>,
    pub line: nat,
}

impl View for Heading {
    type V = HeadingView;

    open spec fn view(&self) -> HeadingView {
        HeadingView { level: self.level, text: self.text@, line: self.line as nat }
    }
}

/// A link to another note or to a part of one.
#[derive(Clone, Debug)]
pub struct WikiLink {
    /// The link as it is written, brackets included.
    pub raw: String,
    /// The note that the link names; empty for a link within its own note.
    pub target: String,
    pub heading: Option<String>,
    pub block_ref: Option<String>,
    pub alias: Option<String>,
    /// The line on which the link starts, from 0.
    pub line: usize,
}

/// The mathematical form of a [`WikiLink`].
pub struct LinkView {
    pub raw: Seq<char>,
    pub target: Seq<char>,
    pub heading: Option<Seq<char>>,
    pub block_ref: Option<Seq<char>>,
    pub alias: Option<Seq<char>>,
    pub line: nat,
}

/// The text in an option.
pub open spec fn option_text(o: Option<String>) -> Option<Seq<char>> {
    match o {
        Some(s) => Some(s@),
        None => None,
    }
}

impl View for WikiLink {
    type V = LinkView;

    open spec fn view(&self) -> LinkView {
        LinkView {
            raw: self.raw@,
            target: self.target@,
            heading: option_text(self.heading),
            block_ref: option_text(self.block_ref),
            alias: option_text(self.alias),
            line: self.line as nat,
        }
    }
}

/// What a note is made of.
#[derive(Clone, Debug)]
pub struct DocumentMap {
    pub headings: Vec<String>,
    pub block_refs: Vec<String>,
    pub frontmatter_fields: Vec<String>,
}

/// What the disk says of a file.
#[derive(Clone, Copy, Debug, PartialEq, Eq, Structural)]
pub struct FileStat {
    pub size: u64,
    /// When the file was created, in nanoseconds since 1970.
    pub created: Option<i64>,
    /// When the file was last changed, in nanoseconds since 1970.
    pub modified: Option<i64>,
}

/// What the index knows of a note.
#[derive(Clone, Debug)]
pub struct NoteMetadata {
    pub path: String,
    pub title: String,
    pub tags: Vec<String>,
    pub frontmatter: Option<serde_json::Value>,
    pub headings: Vec<Heading>,
    pub links: Vec<WikiLink>,
    pub block_refs: Vec<String>,
    pub stat: FileStat,
}

/// Counts over the whole vault.
#[derive(Clone, Copy, Debug, PartialEq, Eq, Structural)]
pub struct VaultStats {
    pub total_notes: usize,
    pub total_files: usize,
    pub total_tags: usize,
    pub total_links: usize,
    pub vault_size_bytes: u64,
    /// Notes that are kept out of the index.
    pub excluded_notes: usize,
}

/// A match of a search in a note.
#[derive(Clone, Debug)]
pub struct SearchMatch {
    /// The line on which the match starts, from 0.
    pub line: usize,
    pub context: String,
    /// Where the match starts in the context, in characters.
    pub match_start: usize,
    /// Where the match ends in the context, in characters.
    pub match_end: usize,
}

/// The mathematical form of a [`SearchMatch`].
pub struct MatchView {
    pub line: nat,
    pub context: Seq<char>,
    pub match_start: nat,
    pub match_end: nat,
}

impl View for SearchMatch {
    type V = MatchView;

    open spec fn view(&self) -> MatchView {
        MatchView {
            line: self.line as nat,
            context: self.context@,
            match_start: self.match_start as nat,
            match_end: self.match_end as nat,
        }
    }
}

/// The matches of a search in one note.
#[derive(Clone, Debug)]
pub struct SearchResult {
    pub path: String,
    pub matches: Vec<SearchMatch>,
}

/// Where embeddings come from.
#[derive(Clone, Copy, Debug, PartialEq, Eq, Structural)]
pub enum EmbeddingProvider {
    Local,
    Api,
}

/// A part of a note in which full-text search looks.
#[derive(Clone, Copy, Debug, PartialEq, Eq, Structural)]
pub enum SearchField {
    Title,
    Headings,
    Body,
    Tags,
    Frontmatter,
}

/// What the indices other than the note index have to do after a change.
#[derive(Debug)]
pub enum FollowUp {
    Nothing,
    /// Index the note at this path anew.
    Update(String),
    /// Forget the note at this path.
    Forget(String),
}

/// The mathematical form of a [`FollowUp`].
pub enum FollowUpView {
    Nothing,
    Update(Seq<char>),
    Forget(Seq<char>),
}

impl View for FollowUp {
    type V = FollowUpView;

    open spec fn view(&self) -> FollowUpView {
        match *self {
            FollowUp::Nothing => FollowUpView::Nothing,
            FollowUp::Update(p) => FollowUpView::Update(p@),
            FollowUp::Forget(p) => FollowUpView::Forget(p@),
        }
    }
}

} // verus!
