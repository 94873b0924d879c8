//! In-memory vault index: metadata of every note, lookups by path, tag and link.
use crate::error::{ErrorView, VaultError};
use crate::exclude;
use crate::exclude::ExcludeSet;
use crate::frontmatter;
use crate::fs;
use crate::index_laws;
use crate::json;
use crate::json::{JsonKind, JsonView};
use crate::models::{
    FileStat, Heading, HeadingView, LinkView, MatchView, NoteMetadata, SearchMatch, SearchResult,
    VaultStats, WikiLink,
};
use crate::parser;
use crate::path;
use crate::pattern;
use crate::table::Table;
use crate::text;
use crate::wikilink;
use crate::wikilink::{LinkResolver, ResolverView};
use vstd::prelude::*;

verus! {

// ---------------------------------------------------------------------------
// Metadata of a note
// ---------------------------------------------------------------------------

/// The tags of the front matter of a note.
pub open spec fn front_tags(content: Seq<char>) -> Seq<Seq<char>> {
    match frontmatter::front_fields(content) {
        Ok(Some(m)) => frontmatter::string_list(JsonView::Object(m), "tags"@),
        _ => Seq::empty(),
    }
}

/// All tags of a note, in ascending order without repetitions.
pub open spec fn all_tags(content: Seq<char>) -> Seq<Seq<char>> {
    let all = front_tags(content) + parser::inline_tags(content);
    text::sorted_set(all, all.len())
}

/// Whether metadata is that of a note with this path, content and stat.
pub open spec fn describes(
    m: NoteMetadata,
    path: Seq<char>,
    content: Seq<char>,
    stat: FileStat,
) -> bool {
    &&& m.path@ == path
    &&& m.title@ == path::file_stem(path)
    &&& text::strings(m.tags@) == all_tags(content)
    &&& frontmatter::parsed_result(Ok(m.frontmatter)) == frontmatter::as_object(
        frontmatter::front_fields(content),
    )
    &&& m.headings@.map_values(|h: Heading| h@) == parser::note_headings(content).map_values(
        |h: parser::HeadingPosView| parser::plain_heading(h),
    )
    &&& parser::link_views(m.links@) == parser::note_links(content)
    &&& text::strings(m.block_refs@) == parser::note_block_refs(content)
    &&& m.stat == stat
}

/// Parses the metadata of a note. Fails where the front matter is malformed.
pub fn parse_note_metadata(path: &str, content: &str, stat: FileStat) -> (r: Result<
    NoteMetadata,
    VaultError,
>)
    ensures
        match r {
            Ok(m) => describes(m, path@, content@, stat) && frontmatter::front_fields(content@)
                is Ok,
            Err(e) => frontmatter::front_fields(content@) == Err::<
                Option<Map<Seq<char>, JsonView>>,
                ErrorView,
            >(e@),
        },
{
    let parsed = frontmatter::parse_frontmatter(content);
    let fields = match parsed {
        Ok(f) => f,
        Err(e) => {
            return Err(e);
        },
    };
    let mut all = match &fields {
        Some(v) => frontmatter::extract_frontmatter_tags(v),
        None => Vec::new(),
    };
    assert(text::strings(all@) =~= front_tags(content@));
    exclude::append_strings(&mut all, &parser::extract_inline_tags(content));
    assert(text::strings(all@).len() == all@.len());
    Ok(
        NoteMetadata {
            path: path.to_owned(),
            title: path::stem(path),
            tags: text::sort_unique(&all),
            frontmatter: fields,
            headings: parser::extract_headings(content),
            links: parser::extract_wikilinks(content),
            block_refs: parser::extract_block_refs(content),
            stat,
        },
    )
}

// ---------------------------------------------------------------------------
// The index
// ---------------------------------------------------------------------------

/// Metadata of every note of a vault, with what can be looked up in it. All spellings of a path
/// (`a//b.md`, `a/./b.md`) are the same path; notes are known by the tidy one.
pub struct VaultIndex {
    notes: Table<NoteMetadata>,
    tags: Table<Vec<String>>,
    link_resolver: LinkResolver,
    backlinks: Table<Vec<String>>,
    excluded: Vec<String>,
    stats: VaultStats,
    non_md_file_count: usize,
    non_md_bytes: u64,
}

/// What a [`VaultIndex`] knows.
pub struct IndexView {
    /// The notes by their paths.
    pub notes: Map<Seq<char>, NoteMetadata>,
    /// The paths of the notes in the order in which they are walked.
    pub order: Seq<Seq<char>>,
    /// The notes that have a tag.
    pub tags: Map<Seq<char>, Seq<Seq<char>>>,
    /// The tags in the order in which they are walked.
    pub tag_order: Seq<Seq<char>>,
    pub links: ResolverView,
    /// The notes that link to a note.
    pub backlinks: Map<Seq<char>, Seq<Seq<char>>>,
    /// The notes that are kept out of the index.
    pub excluded: Seq<Seq<char>>,
    pub stats: VaultStats,
    /// Number of other files.
    pub other_files: usize,
    /// Size of the other files.
    pub other_bytes: u64,
}

/// The lists of a table of lists.
pub open spec fn lists_of(t: Map<Seq<char>, Vec<String>>) -> Map<Seq<char>, Seq<Seq<char>>> {
    t.map_values(|v: Vec<String>| text::strings(v@))
}

impl View for VaultIndex {
    type V = IndexView;

    closed spec fn view(&self) -> IndexView {
        IndexView {
            notes: self.notes@,
            order: self.notes.keys(),
            tags: lists_of(self.tags@),
            tag_order: self.tags.keys(),
            links: self.link_resolver@,
            backlinks: lists_of(self.backlinks@),
            excluded: text::strings(self.excluded@),
            stats: self.stats,
            other_files: self.non_md_file_count,
            other_bytes: self.non_md_bytes,
        }
    }
}

/// A list with a path in it.
pub open spec fn with_member(list: Seq<Seq<char>>, p: Seq<char>) -> Seq<Seq<char>> {
    if list.contains(p) {
        list
    } else {
        list.push(p)
    }
}

/// Lists by key in which the list at a key holds a path.
pub open spec fn with_listed(
    lists: Map<Seq<char>, Seq<Seq<char>>>,
    key: Seq<char>,
    p: Seq<char>,
) -> Map<Seq<char>, Seq<Seq<char>>> {
    lists.insert(key, with_member(wikilink::paths_at(lists, key), p))
}

/// Lists by key in which the list at a key does not hold a path; a list that is left empty is
/// dropped.
pub open spec fn without_listed(
    lists: Map<Seq<char>, Seq<Seq<char>>>,
    key: Seq<char>,
    p: Seq<char>,
) -> Map<Seq<char>, Seq<Seq<char>>> {
    let left = wikilink::others(wikilink::paths_at(lists, key), p);
    if left.len() == 0 {
        lists.remove(key)
    } else {
        lists.insert(key, left)
    }
}

/// Lists by key in which those of the first `k` keys hold a path.
pub open spec fn listed_under(
    lists: Map<Seq<char>, Seq<Seq<char>>>,
    keys: Seq<Seq<char>>,
    k: nat,
    p: Seq<char>,
) -> Map<Seq<char>, Seq<Seq<char>>>
    decreases k,
{
    if k == 0 {
        lists
    } else {
        with_listed(listed_under(lists, keys, (k - 1) as nat, p), keys[k - 1], p)
    }
}

/// Lists by key in which those of the first `k` keys do not hold a path.
pub open spec fn unlisted_under(
    lists: Map<Seq<char>, Seq<Seq<char>>>,
    keys: Seq<Seq<char>>,
    k: nat,
    p: Seq<char>,
) -> Map<Seq<char>, Seq<Seq<char>>>
    decreases k,
{
    if k == 0 {
        lists
    } else {
        without_listed(unlisted_under(lists, keys, (k - 1) as nat, p), keys[k - 1], p)
    }
}

/// Where links lead, with the first `k` links of a note followed. Links within a note and links
/// that do not resolve lead nowhere.
pub open spec fn linked_from(
    lists: Map<Seq<char>, Seq<Seq<char>>>,
    links: Seq<LinkView>,
    k: nat,
    resolver: ResolverView,
    source: Seq<char>,
) -> Map<Seq<char>, Seq<Seq<char>>>
    decreases k,
{
    if k == 0 {
        lists
    } else {
        let before = linked_from(lists, links, (k - 1) as nat, resolver, source);
        let target = links[k - 1].target;
        match resolver.resolved(target) {
            Some(p) => if target.len() > 0 {
                with_listed(before, p, source)
            } else {
                before
            },
            None => before,
        }
    }
}

/// The notes that link to each note, among the first `k` notes.
pub open spec fn backlinks_of(
    notes: Map<Seq<char>, NoteMetadata>,
    order: Seq<Seq<char>>,
    k: nat,
    resolver: ResolverView,
) -> Map<Seq<char>, Seq<Seq<char>>>
    decreases k,
{
    if k == 0 {
        Map::empty()
    } else {
        let source = order[k - 1];
        let links = parser::link_views(notes[source].links@);
        linked_from(
            backlinks_of(notes, order, (k - 1) as nat, resolver),
            links,
            links.len(),
            resolver,
            source,
        )
    }
}

/// Number of links of the first `k` notes, as far as a machine word can hold it.
pub open spec fn link_count(
    notes: Map<Seq<char>, NoteMetadata>,
    order: Seq<Seq<char>>,
    k: nat,
) -> usize
    decreases k,
{
    if k == 0 {
        0
    } else {
        link_count(notes, order, (k - 1) as nat).wrapping_add(notes[order[k - 1]].links@.len() as usize)
    }
}

/// Size of the first `k` notes, as far as 64 bits can hold it.
pub open spec fn size_of_notes(
    notes: Map<Seq<char>, NoteMetadata>,
    order: Seq<Seq<char>>,
    k: nat,
) -> u64
    decreases k,
{
    if k == 0 {
        0
    } else {
        size_of_notes(notes, order, (k - 1) as nat).wrapping_add(notes[order[k - 1]].stat.size)
    }
}

impl IndexView {
    /// The counts that belong to what the index knows.
    pub open spec fn counted(self) -> VaultStats {
        VaultStats {
            total_notes: self.notes.len() as usize,
            total_files: (self.notes.len() as usize).wrapping_add(self.other_files),
            total_tags: self.tags.len() as usize,
            total_links: link_count(self.notes, self.order, self.order.len()),
            vault_size_bytes: size_of_notes(self.notes, self.order, self.order.len()).wrapping_add(
                self.other_bytes,
            ),
            excluded_notes: self.excluded.len() as usize,
        }
    }

    /// The backlinks that belong to what the index knows.
    pub open spec fn linked(self) -> Map<Seq<char>, Seq<Seq<char>>> {
        backlinks_of(self.notes, self.order, self.order.len(), self.links)
    }

    /// Whether backlinks and counts are those of the notes that the index holds.
    pub open spec fn up_to_date(self) -> bool {
        &&& self.backlinks == self.linked()
        &&& self.stats == self.counted()
    }

    /// The tags after what a note contributes was taken out.
    pub open spec fn tags_without(self, p: Seq<char>) -> Map<Seq<char>, Seq<Seq<char>>> {
        if self.notes.contains_key(p) {
            let ts = text::strings(self.notes[p].tags@);
            unlisted_under(self.tags, ts, ts.len(), p)
        } else {
            self.tags
        }
    }
}

impl VaultIndex {
    /// The tables are well-formed, every note is known by its own path, which is tidy, the paths
    /// that are walked are those of the notes, no tag lists a note twice or none at all, and links
    /// are looked up under the keys of their paths.
    pub closed spec fn wf(&self) -> bool {
        &&& self.notes.wf()
        &&& self.tags.wf()
        &&& self.backlinks.wf()
        &&& forall|p: Seq<char>| #[trigger]
            self.notes@.contains_key(p) ==> self.notes@[p].path@ == p && path::is_tidy(p)
        &&& index_laws::lists_are_tidy(lists_of(self.tags@))
        &&& self.link_resolver@.consistent()
    }

    /// What well-formedness means for what the index knows.
    pub proof fn lemma_wf(&self)
        requires
            self.wf(),
        ensures
            index_laws::is_valid(self@),
            self@.order.len() == self@.notes.len(),
            self@.tag_order.no_duplicates(),
    {
        self.notes.lemma_keys();
        self.tags.lemma_keys();
        assert forall|t: Seq<char>| #[trigger] self@.tags.contains_key(t)
            <==> self@.tag_order.contains(t) by {
            assert(self@.tags.contains_key(t) <==> self.tags@.contains_key(t));
        }
    }

    /// Creates an empty index.
    pub fn empty() -> (r: Self)
        ensures
            r.wf(),
            r@.notes == Map::<Seq<char>, NoteMetadata>::empty(),
            r@.tags == Map::<Seq<char>, Seq<Seq<char>>>::empty(),
            r@.links == ResolverView::empty(),
            r@.backlinks == Map::<Seq<char>, Seq<Seq<char>>>::empty(),
            r@.excluded.len() == 0,
            r@.other_files == 0,
            r@.other_bytes == 0,
            r@.up_to_date(),
    {
        let none: Vec<String> = Vec::new();
        assert(text::strings(none@) =~= Seq::<Seq<char>>::empty());
        let r = VaultIndex {
            notes: Table::new(),
            tags: Table::new(),
            link_resolver: wikilink::build_link_resolver(&none),
            backlinks: Table::new(),
            excluded: Vec::new(),
            stats: VaultStats {
                total_notes: 0,
                total_files: 0,
                total_tags: 0,
                total_links: 0,
                vault_size_bytes: 0,
                excluded_notes: 0,
            },
            non_md_file_count: 0,
            non_md_bytes: 0,
        };
        assert(r@.tags =~= Map::<Seq<char>, Seq<Seq<char>>>::empty());
        assert(r@.backlinks =~= Map::<Seq<char>, Seq<Seq<char>>>::empty());
        r
    }
}

// ---------------------------------------------------------------------------
// Lists by key
// ---------------------------------------------------------------------------

/// Whether a path is in a list.
fn is_listed(list: &Vec<String>, p: &str) -> (r: bool)
    ensures
        r == text::strings(list@).contains(p@),
{
    let ghost all = text::strings(list@);
    let mut k: usize = 0;
    while k < list.len()
        invariant
            k <= list.len(),
            all == text::strings(list@),
            forall|i: int| 0 <= i < k ==> #[trigger] all[i] != p@,
        decreases list.len() - k,
    {
        assert(all[k as int] == list@[k as int]@);
        if text::same_str(&list[k], p) {
            return true;
        }
        k = k + 1;
    }
    assert(all.len() == list@.len());
    false
}

/// The paths of a list other than `p`.
fn list_without(list: &Vec<String>, p: &str) -> (r: Vec<String>)
    ensures
        text::strings(r@) == wikilink::others(text::strings(list@), p@),
{
    let ghost all = text::strings(list@);
    let mut left: Vec<String> = Vec::new();
    assert(text::strings(left@) =~= wikilink::others(all.take(0), p@));
    let mut k: usize = 0;
    while k < list.len()
        invariant
            k <= list.len(),
            all == text::strings(list@),
            text::strings(left@) == wikilink::others(all.take(k as int), p@),
        decreases list.len() - k,
    {
        let ghost before = left@;
        assert(all.take(k as int + 1).drop_last() =~= all.take(k as int));
        assert(all.take(k as int + 1).last() == list@[k as int]@);
        if !text::same_str(&list[k], p) {
            left.push(list[k].clone());
            assert(text::strings(left@) =~= text::strings(before).push(list@[k as int]@));
        }
        k = k + 1;
    }
    assert(all.take(k as int) =~= all);
    left
}

/// Puts a path into the list at a key.
fn list_under(table: &mut Table<Vec<String>>, key: &str, p: &str)
    requires
        old(table).wf(),
    ensures
        final(table).wf(),
        lists_of(final(table)@) == with_listed(lists_of(old(table)@), key@, p@),
{
    let ghost before = table@;
    let mut list = match table.remove(key) {
        Some(v) => v,
        None => Vec::new(),
    };
    assert(text::strings(list@) =~= wikilink::paths_at(lists_of(before), key@));
    if !is_listed(&list, p) {
        let ghost list_before = list@;
        list.push(p.to_owned());
        assert(text::strings(list@) =~= text::strings(list_before).push(p@));
    }
    table.insert(key.to_owned(), list);
    assert(lists_of(table@) =~= with_listed(lists_of(before), key@, p@));
}

/// Puts a path into the lists at all of the keys.
fn list_under_all(table: &mut Table<Vec<String>>, keys: &Vec<String>, p: &str)
    requires
        old(table).wf(),
    ensures
        final(table).wf(),
        lists_of(final(table)@) == listed_under(
            lists_of(old(table)@),
            text::strings(keys@),
            keys.len() as nat,
            p@,
        ),
{
    let ghost before = lists_of(table@);
    let ghost ks = text::strings(keys@);
    let mut k: usize = 0;
    while k < keys.len()
        invariant
            k <= keys.len(),
            table.wf(),
            ks == text::strings(keys@),
            lists_of(table@) == listed_under(before, ks, k as nat, p@),
        decreases keys.len() - k,
    {
        assert(ks[k as int] == keys@[k as int]@);
        list_under(table, &keys[k], p);
        k = k + 1;
    }
}

/// Takes a path out of the lists at all of the keys.
fn unlist_under_all(table: &mut Table<Vec<String>>, keys: &Vec<String>, p: &str)
    requires
        old(table).wf(),
    ensures
        final(table).wf(),
        lists_of(final(table)@) == unlisted_under(
            lists_of(old(table)@),
            text::strings(keys@),
            keys.len() as nat,
            p@,
        ),
{
    let ghost before = lists_of(table@);
    let ghost ks = text::strings(keys@);
    let mut k: usize = 0;
    while k < keys.len()
        invariant
            k <= keys.len(),
            table.wf(),
            ks == text::strings(keys@),
            lists_of(table@) == unlisted_under(before, ks, k as nat, p@),
        decreases keys.len() - k,
    {
        assert(ks[k as int] == keys@[k as int]@);
        let ghost at_k = table@;
        let key = &keys[k];
        let left = match table.remove(key) {
            Some(list) => list_without(&list, p),
            None => {
                let none: Vec<String> = Vec::new();
                assert(text::strings(none@) =~= Seq::<Seq<char>>::empty());
                none
            },
        };
        assert(text::strings(left@) == wikilink::others(
            wikilink::paths_at(lists_of(at_k), key@),
            p@,
        ));
        assert(text::strings(left@).len() == left@.len());
        if left.len() > 0 {
            table.insert(key.clone(), left);
        }
        assert(lists_of(table@) =~= without_listed(lists_of(at_k), key@, p@));
        k = k + 1;
    }
}

// ---------------------------------------------------------------------------
// Changes
// ---------------------------------------------------------------------------

/// A note as it is on disk.
#[derive(Debug)]
pub struct NoteFile {
    pub content: String,
    pub stat: FileStat,
}

/// What reading a note says of its metadata: the error of the disk, or that of its front matter.
pub open spec fn note_error(read: Result<NoteFile, VaultError>) -> Option<ErrorView> {
    match read {
        Ok(file) => match frontmatter::front_fields(file.content@) {
            Ok(_) => None,
            Err(e) => Some(e),
        },
        Err(e) => Some(e@),
    }
}

/// The tags after a note with this content was added.
pub open spec fn tags_with(
    tags: Map<Seq<char>, Seq<Seq<char>>>,
    content: Seq<char>,
    p: Seq<char>,
) -> Map<Seq<char>, Seq<Seq<char>>> {
    let ts = all_tags(content);
    listed_under(tags, ts, ts.len(), p)
}

/// Whether notes are those before with this one in the place of what had its path.
pub open spec fn has_note(
    after: Map<Seq<char>, NoteMetadata>,
    before: Map<Seq<char>, NoteMetadata>,
    p: Seq<char>,
    file: NoteFile,
) -> bool {
    &&& after.contains_key(p)
    &&& after == before.insert(p, after[p])
    &&& describes(after[p], p, file.content@, file.stat)
}

/// Whether the counts of other files and the notes that are kept out are as before, but for one
/// path that is no longer kept out.
pub open spec fn keeps_the_rest(after: IndexView, before: IndexView, p: Seq<char>) -> bool {
    &&& after.excluded == wikilink::others(before.excluded, p)
    &&& after.other_files == before.other_files
    &&& after.other_bytes == before.other_bytes
}

/// Whether an index is the one before without a file.
pub open spec fn is_without(after: IndexView, before: IndexView, p: Seq<char>) -> bool {
    &&& after.notes == before.notes.remove(p)
    &&& after.tags == before.tags_without(p)
    &&& after.links == before.links.without_path(p)
    &&& keeps_the_rest(after, before, p)
    &&& after.up_to_date()
}

/// Whether an index is the one before without a file, which it records as kept out.
pub open spec fn is_excluding(after: IndexView, before: IndexView, p: Seq<char>) -> bool {
    &&& after.notes == before.notes.remove(p)
    &&& after.tags == before.tags_without(p)
    &&& after.links == before.links.without_path(p)
    &&& after.excluded == wikilink::others(before.excluded, p).push(p)
    &&& after.other_files == before.other_files
    &&& after.other_bytes == before.other_bytes
    &&& after.up_to_date()
}

/// Whether an index is the one before with a note at a path, in the place of what was there.
pub open spec fn is_reindexed(
    after: IndexView,
    before: IndexView,
    p: Seq<char>,
    file: NoteFile,
) -> bool {
    &&& has_note(after.notes, before.notes, p, file)
    &&& after.tags == tags_with(before.tags_without(p), file.content@, p)
    &&& after.links == before.links.without_path(p).with_path(p)
    &&& keeps_the_rest(after, before, p)
    &&& after.up_to_date()
}

/// Whether an index is the one before after a note could not be indexed: the note is gone, and
/// backlinks and counts are left as they were.
pub open spec fn is_dropped(after: IndexView, before: IndexView, p: Seq<char>) -> bool {
    &&& after.notes == before.notes.remove(p)
    &&& after.tags == before.tags_without(p)
    &&& after.links == before.links.without_path(p)
    &&& after.backlinks == before.backlinks
    &&& after.stats == before.stats
    &&& keeps_the_rest(after, before, p)
}

/// Whether an index is the one before with a note under another path.
pub open spec fn is_renamed(
    after: IndexView,
    before: IndexView,
    from: Seq<char>,
    to: Seq<char>,
    file: NoteFile,
) -> bool {
    &&& has_note(after.notes, before.notes.remove(from), to, file)
    &&& after.tags == tags_with(before.tags_without(from), file.content@, to)
    &&& after.links == before.links.without_path(from).with_path(to)
    &&& after.excluded == wikilink::others(wikilink::others(before.excluded, from), to)
    &&& after.other_files == before.other_files
    &&& after.other_bytes == before.other_bytes
    &&& after.up_to_date()
}

/// Whether an index is the one before after a renamed note could not be indexed: the note is
/// gone, links resolve to its new path, and the counts are left as they were.
pub open spec fn is_half_renamed(
    after: IndexView,
    before: IndexView,
    from: Seq<char>,
    to: Seq<char>,
) -> bool {
    &&& after.notes == before.notes.remove(from)
    &&& after.tags == before.tags_without(from)
    &&& after.links == before.links.without_path(from).with_path(to)
    &&& after.backlinks == before.backlinks.remove(from)
    &&& after.stats == before.stats
    &&& keeps_the_rest(after, before, from)
}

/// Reads the metadata of a note from what is on disk.
fn read_metadata(path: &str, read: Result<NoteFile, VaultError>) -> (r: Result<
    NoteMetadata,
    VaultError,
>)
    ensures
        match r {
            Ok(m) => note_error(read) is None && read is Ok && describes(
                m,
                path@,
                read->Ok_0.content@,
                read->Ok_0.stat,
            ),
            Err(e) => note_error(read) == Some(e@),
        },
{
    match read {
        Ok(file) => parse_note_metadata(path, &file.content, file.stat),
        Err(e) => Err(e),
    }
}

impl VaultIndex {
    /// Takes out what a note contributes to the notes and tags.
    fn remove_note_contributions(&mut self, path: &str)
        requires
            old(self).wf(),
        ensures
            final(self).wf(),
            final(self)@.notes == old(self)@.notes.remove(path@),
            final(self)@.tags == old(self)@.tags_without(path@),
            final(self)@.links == old(self)@.links,
            final(self)@.backlinks == old(self)@.backlinks,
            final(self)@.excluded == wikilink::others(old(self)@.excluded, path@),
            final(self)@.stats == old(self)@.stats,
            final(self)@.other_files == old(self)@.other_files,
            final(self)@.other_bytes == old(self)@.other_bytes,
    {
        if let Some(note) = self.notes.remove(path) {
            assert(text::strings(note.tags@).len() == note.tags@.len());
            proof {
                let ts = text::strings(note.tags@);
                index_laws::lemma_unlisted_under(lists_of(self.tags@), ts, ts.len(), path@);
            }
            unlist_under_all(&mut self.tags, &note.tags, path);
        }
        self.excluded = list_without(&self.excluded, path);
    }

    /// Puts a note into the notes and tags.
    fn add_note(&mut self, path: &str, metadata: NoteMetadata)
        requires
            old(self).wf(),
            metadata.path@ == path@,
            path::is_tidy(path@),
        ensures
            final(self).wf(),
            final(self)@.notes == old(self)@.notes.insert(path@, metadata),
            final(self)@.tags == listed_under(
                old(self)@.tags,
                text::strings(metadata.tags@),
                metadata.tags@.len(),
                path@,
            ),
            final(self)@.links == old(self)@.links,
            final(self)@.backlinks == old(self)@.backlinks,
            final(self)@.excluded == old(self)@.excluded,
            final(self)@.stats == old(self)@.stats,
            final(self)@.other_files == old(self)@.other_files,
            final(self)@.other_bytes == old(self)@.other_bytes,
    {
        proof {
            index_laws::lemma_listed_under(
                lists_of(self.tags@),
                text::strings(metadata.tags@),
                metadata.tags@.len(),
                path@,
            );
        }
        list_under_all(&mut self.tags, &metadata.tags, path);
        self.notes.insert(path.to_owned(), metadata);
    }

    /// Follows the links of all notes anew.
    fn rebuild_backlinks(&mut self)
        requires
            old(self).wf(),
        ensures
            final(self).wf(),
            final(self)@ == (IndexView { backlinks: old(self)@.linked(), ..old(self)@ }),
    {
        let ghost v = self@;
        let mut backlinks: Table<Vec<String>> = Table::new();
        assert(lists_of(backlinks@) =~= Map::<Seq<char>, Seq<Seq<char>>>::empty());
        let n = self.notes.len();
        let mut k: usize = 0;
        while k < n
            invariant
                k <= n,
                n == self.notes.keys().len(),
                self.wf(),
                self@ == v,
                backlinks.wf(),
                lists_of(backlinks@) == backlinks_of(v.notes, v.order, k as nat, v.links),
            decreases n - k,
        {
            let source = self.notes.key_at(k);
            let note = self.notes.value_at(k);
            let ghost before = lists_of(backlinks@);
            let ghost links = parser::link_views(note.links@);
            assert(links.len() == note.links@.len());
            let mut i: usize = 0;
            while i < note.links.len()
                invariant
                    i <= note.links.len(),
                    self@ == v,
                    links == parser::link_views(note.links@),
                    backlinks.wf(),
                    lists_of(backlinks@) == linked_from(before, links, i as nat, v.links, source@),
                decreases note.links.len() - i,
            {
                let link = &note.links[i];
                assert(links[i as int] == link@);
                let target: &str = &link.target;
                if !text::same_str(target, "") {
                    proof {
                        reveal_strlit("");
                        assert(target@.len() == 0 ==> target@ =~= ""@);
                    }
                    if let Some(resolved) = self.link_resolver.resolve(target) {
                        list_under(&mut backlinks, &resolved, source);
                    }
                } else {
                    proof {
                        reveal_strlit("");
                    }
                }
                i = i + 1;
            }
            k = k + 1;
        }
        self.backlinks = backlinks;
    }

    /// Counts everything anew.
    fn recompute_stats(&mut self)
        requires
            old(self).wf(),
        ensures
            final(self).wf(),
            final(self)@ == (IndexView { stats: old(self)@.counted(), ..old(self)@ }),
    {
        let ghost v = self@;
        let n = self.notes.len();
        let mut links: usize = 0;
        let mut bytes: u64 = 0;
        let mut k: usize = 0;
        while k < n
            invariant
                k <= n,
                n == self.notes.keys().len(),
                self.wf(),
                self@ == v,
                links == link_count(v.notes, v.order, k as nat),
                bytes == size_of_notes(v.notes, v.order, k as nat),
            decreases n - k,
        {
            let note = self.notes.value_at(k);
            links = links.wrapping_add(note.links.len());
            bytes = bytes.wrapping_add(note.stat.size);
            k = k + 1;
        }
        let total_tags = self.tags.len();
        assert(lists_of(self.tags@).dom() =~= self.tags@.dom());
        assert(text::strings(self.excluded@).len() == self.excluded@.len());
        self.stats = VaultStats {
            total_notes: n,
            total_files: n.wrapping_add(self.non_md_file_count),
            total_tags,
            total_links: links,
            vault_size_bytes: bytes.wrapping_add(self.non_md_bytes),
            excluded_notes: self.excluded.len(),
        };
    }

    /// Re-indexes a single file (on create or modify), given what reading it gave.
    ///
    /// On an error the note is no longer indexed; backlinks and counts are left as they were.
    pub fn reindex_file(&mut self, path: &str, read: Result<NoteFile, VaultError>) -> (r: Result<
        (),
        VaultError,
    >)
        requires
            old(self).wf(),
        ensures
            final(self).wf(),
            match r {
                Ok(_) => note_error(read) is None && read is Ok && is_reindexed(
                    final(self)@,
                    old(self)@,
                    path::tidy(path@),
                    read->Ok_0,
                ),
                Err(e) => note_error(read) == Some(e@) && is_dropped(
                    final(self)@,
                    old(self)@,
                    path::tidy(path@),
                ),
            },
            r is Ok && text::is_ascii(path::tidy(path@)) ==> wikilink::has_ascii_keys(
                path::tidy(path@),
            ),
    {
        let ghost before = self@;
        proof {
            path::law_tidy_path_is_the_path(path@, path@);
        }
        let path = path::tidied(path);
        proof {
            wikilink::law_resolver_stays_consistent(before.links, path@);
            wikilink::law_resolver_stays_consistent(before.links.without_path(path@), path@);
        }
        self.remove_note_contributions(&path);
        self.link_resolver.remove_path(&path);
        match read_metadata(&path, read) {
            Ok(metadata) => {
                self.link_resolver.add_path(path.clone());
                assert(text::strings(metadata.tags@).len() == metadata.tags@.len());
                self.add_note(&path, metadata);
                self.rebuild_backlinks();
                self.recompute_stats();
                assert(self@.notes =~= before.notes.insert(path@, metadata));
                Ok(())
            },
            Err(e) => Err(e),
        }
    }

    /// Removes a file from the index (on delete).
    pub fn remove_file(&mut self, path: &str)
        requires
            old(self).wf(),
        ensures
            final(self).wf(),
            is_without(final(self)@, old(self)@, path::tidy(path@)),
    {
        let path = path::tidied(path);
        proof {
            wikilink::law_resolver_stays_consistent(self@.links, path@);
        }
        self.remove_note_contributions(&path);
        self.link_resolver.remove_path(&path);
        self.rebuild_backlinks();
        self.recompute_stats();
    }

    /// Handles a file rename or move, given what reading the file at its new path gave.
    ///
    /// On an error the note is no longer indexed under its old path, links resolve to the new
    /// one, and the counts are left as they were.
    pub fn rename_file(
        &mut self,
        old_path: &str,
        new_path: &str,
        read: Result<NoteFile, VaultError>,
    ) -> (r: Result<(), VaultError>)
        requires
            old(self).wf(),
        ensures
            final(self).wf(),
            match r {
                Ok(_) => note_error(read) is None && read is Ok && is_renamed(
                    final(self)@,
                    old(self)@,
                    path::tidy(old_path@),
                    path::tidy(new_path@),
                    read->Ok_0,
                ),
                Err(e) => note_error(read) == Some(e@) && is_half_renamed(
                    final(self)@,
                    old(self)@,
                    path::tidy(old_path@),
                    path::tidy(new_path@),
                ),
            },
            text::is_ascii(path::tidy(new_path@)) ==> wikilink::has_ascii_keys(
                path::tidy(new_path@),
            ),
    {
        let ghost before = self@;
        proof {
            path::law_tidy_path_is_the_path(new_path@, new_path@);
        }
        let from = path::tidied(old_path);
        let to = path::tidied(new_path);
        proof {
            wikilink::law_resolver_stays_consistent(before.links, from@);
            wikilink::law_resolver_stays_consistent(before.links.without_path(from@), to@);
        }
        self.remove_note_contributions(&from);
        self.link_resolver.rename_path(&from, to.clone());
        self.backlinks.remove(&from);
        assert(self@.backlinks =~= before.backlinks.remove(from@));
        match read_metadata(&to, read) {
            Ok(metadata) => {
                assert(text::strings(metadata.tags@).len() == metadata.tags@.len());
                self.excluded = list_without(&self.excluded, &to);
                self.add_note(&to, metadata);
                self.rebuild_backlinks();
                self.recompute_stats();
                Ok(())
            },
            Err(e) => Err(e),
        }
    }

    /// Records a note that is kept out of the index.
    pub fn add_excluded_file(&mut self, path: &str)
        requires
            old(self).wf(),
        ensures
            final(self).wf(),
            is_excluding(final(self)@, old(self)@, path::tidy(path@)),
    {
        let path = path::tidied(path);
        proof {
            wikilink::law_resolver_stays_consistent(self@.links, path@);
        }
        self.remove_note_contributions(&path);
        self.link_resolver.remove_path(&path);
        let ghost before = self.excluded@;
        self.excluded.push(path.clone());
        assert(text::strings(self.excluded@) =~= text::strings(before).push(path@));
        self.rebuild_backlinks();
        self.recompute_stats();
    }
}

// ---------------------------------------------------------------------------
// Building
// ---------------------------------------------------------------------------

/// A file that a walk through the vault came upon.
#[derive(Debug)]
pub struct ScannedFile {
    /// The path below the root of the vault.
    pub path: String,
    /// The size, if it could be had.
    pub size: Option<u64>,
    /// The note in the file, if it could be read.
    pub note: Option<NoteFile>,
}

/// The path under which a scanned file is known.
pub open spec fn scanned_path(f: ScannedFile) -> Seq<char> {
    path::tidy(path::forward_slashes(f.path@))
}

/// Whether a scanned file counts: nothing on the way to it is hidden, and it is not excluded.
pub open spec fn counts(f: ScannedFile, patterns: Seq<Seq<char>>) -> bool {
    fs::shown(Seq::empty(), f.path@) && !exclude::any_matches(patterns, scanned_path(f))
}

/// Whether a scanned file is a note that is kept out of the index.
pub open spec fn kept_out(f: ScannedFile, patterns: Seq<Seq<char>>) -> bool {
    fs::shown(Seq::empty(), f.path@) && exclude::any_matches(patterns, scanned_path(f))
        && path::is_markdown(f.path@)
}

/// Whether a scanned file is indexed: it is a note that can be read and has no malformed front
/// matter.
pub open spec fn is_indexed(f: ScannedFile, patterns: Seq<Seq<char>>) -> bool {
    counts(f, patterns) && path::is_markdown(f.path@) && match f.note {
        Some(note) => frontmatter::front_fields(note.content@) is Ok,
        None => false,
    }
}

/// The last one, among the first `k` files, that is indexed under a path.
pub open spec fn indexed_at(
    files: Seq<ScannedFile>,
    patterns: Seq<Seq<char>>,
    k: nat,
    p: Seq<char>,
) -> Option<NoteFile>
    decreases k,
{
    if k == 0 {
        None
    } else if is_indexed(files[k - 1], patterns) && scanned_path(files[k - 1]) == p {
        files[k - 1].note
    } else {
        indexed_at(files, patterns, (k - 1) as nat, p)
    }
}

/// The tags of the first `k` files.
pub open spec fn scanned_tags(files: Seq<ScannedFile>, patterns: Seq<Seq<char>>, k: nat) -> Map<
    Seq<char>,
    Seq<Seq<char>>,
>
    decreases k,
{
    if k == 0 {
        Map::empty()
    } else {
        let before = scanned_tags(files, patterns, (k - 1) as nat);
        let f = files[k - 1];
        if is_indexed(f, patterns) {
            tags_with(before, f.note->Some_0.content@, scanned_path(f))
        } else {
            before
        }
    }
}

/// The notes among the first `k` files that are kept out of the index.
pub open spec fn scanned_excluded(files: Seq<ScannedFile>, patterns: Seq<Seq<char>>, k: nat) -> Seq<
    Seq<char>,
>
    decreases k,
{
    if k == 0 {
        Seq::empty()
    } else {
        let before = scanned_excluded(files, patterns, (k - 1) as nat);
        if kept_out(files[k - 1], patterns) {
            with_member(before, scanned_path(files[k - 1]))
        } else {
            before
        }
    }
}

/// The number of other files among the first `k`.
pub open spec fn scanned_others(files: Seq<ScannedFile>, patterns: Seq<Seq<char>>, k: nat) -> nat
    decreases k,
{
    if k == 0 {
        0
    } else {
        let before = scanned_others(files, patterns, (k - 1) as nat);
        if counts(files[k - 1], patterns) && !path::is_markdown(files[k - 1].path@) {
            before + 1
        } else {
            before
        }
    }
}

/// The size of the other files among the first `k`, as far as 64 bits can hold it.
pub open spec fn scanned_bytes(files: Seq<ScannedFile>, patterns: Seq<Seq<char>>, k: nat) -> u64
    decreases k,
{
    if k == 0 {
        0
    } else {
        let before = scanned_bytes(files, patterns, (k - 1) as nat);
        match files[k - 1].size {
            Some(size) => if counts(files[k - 1], patterns) && !path::is_markdown(
                files[k - 1].path@,
            ) {
                before.wrapping_add(size)
            } else {
                before
            },
            None => before,
        }
    }
}

/// Whether notes are those among the first `k` files that are indexed.
pub open spec fn holds_scanned(
    notes: Map<Seq<char>, NoteMetadata>,
    files: Seq<ScannedFile>,
    patterns: Seq<Seq<char>>,
    k: nat,
) -> bool {
    forall|p: Seq<char>|
        match indexed_at(files, patterns, k, p) {
            Some(file) => #[trigger] notes.contains_key(p) && describes(
                notes[p],
                p,
                file.content@,
                file.stat,
            ),
            None => !notes.contains_key(p),
        }
}

impl VaultIndex {
    /// Takes a scanned file into the index, all but links and counts.
    fn take_in(&mut self, file: &ScannedFile, exclude: &ExcludeSet)
        requires
            old(self).wf(),
            old(self)@.other_files < usize::MAX,
        ensures
            final(self).wf(),
            final(self)@.links == old(self)@.links,
            ({
                let p = scanned_path(*file);
                &&& if is_indexed(*file, exclude@) {
                    &&& has_note(final(self)@.notes, old(self)@.notes, p, file.note->Some_0)
                    &&& final(self)@.tags == tags_with(
                        old(self)@.tags,
                        file.note->Some_0.content@,
                        p,
                    )
                } else {
                    &&& final(self)@.notes == old(self)@.notes
                    &&& final(self)@.tags == old(self)@.tags
                }
                &&& final(self)@.excluded == if kept_out(*file, exclude@) {
                    with_member(old(self)@.excluded, p)
                } else {
                    old(self)@.excluded
                }
                &&& if counts(*file, exclude@) && !path::is_markdown(file.path@) {
                    &&& final(self)@.other_files == old(self)@.other_files + 1
                    &&& final(self)@.other_bytes == match file.size {
                        Some(size) => old(self)@.other_bytes.wrapping_add(size),
                        None => old(self)@.other_bytes,
                    }
                } else {
                    &&& final(self)@.other_files == old(self)@.other_files
                    &&& final(self)@.other_bytes == old(self)@.other_bytes
                }
            }),
    {
        proof {
            reveal_strlit("");
            assert(""@ =~= Seq::<char>::empty());
        }
        if !fs::is_shown("", &file.path) {
            return ;
        }
        let chars = text::to_chars(&file.path);
        let slashed = text::from_chars(&path::with_forward_slashes(&chars));
        let p = path::tidied(&slashed);
        proof {
            path::law_tidy_path_is_the_path(slashed@, slashed@);
        }
        let markdown = path::names_markdown(&file.path);
        if exclude.is_excluded(&p) {
            if markdown && !is_listed(&self.excluded, &p) {
                let ghost before = self.excluded@;
                self.excluded.push(p);
                assert(text::strings(self.excluded@) =~= text::strings(before).push(p@));
            }
            return ;
        }
        if markdown {
            if let Some(note) = &file.note {
                if let Ok(metadata) = parse_note_metadata(&p, &note.content, note.stat) {
                    assert(text::strings(metadata.tags@).len() == metadata.tags@.len());
                    self.add_note(&p, metadata);
                }
            }
        } else {
            self.non_md_file_count = self.non_md_file_count + 1;
            if let Some(size) = file.size {
                self.non_md_bytes = self.non_md_bytes.wrapping_add(size);
            }
        }
    }

    /// Builds the index from the files that a walk through the vault came upon.
    pub fn build(files: &Vec<ScannedFile>, exclude: &ExcludeSet) -> (r: Self)
        ensures
            r.wf(),
            holds_scanned(r@.notes, files@, exclude@, files@.len()),
            r@.tags == scanned_tags(files@, exclude@, files@.len()),
            r@.excluded == scanned_excluded(files@, exclude@, files@.len()),
            r@.other_files == scanned_others(files@, exclude@, files@.len()),
            r@.other_bytes == scanned_bytes(files@, exclude@, files@.len()),
            r@.links == ResolverView::of_paths(r@.order),
            r@.up_to_date(),
            forall|i: int|
                0 <= i < r@.order.len() && text::is_ascii(#[trigger] r@.order[i])
                    ==> wikilink::has_ascii_keys(r@.order[i]),
    {
        let mut index = VaultIndex::empty();
        assert(index@.excluded =~= Seq::<Seq<char>>::empty());
        let ghost pats = exclude@;
        let mut k: usize = 0;
        while k < files.len()
            invariant
                k <= files.len(),
                pats == exclude@,
                index.wf(),
                holds_scanned(index@.notes, files@, pats, k as nat),
                index@.tags == scanned_tags(files@, pats, k as nat),
                index@.excluded == scanned_excluded(files@, pats, k as nat),
                index@.other_files == scanned_others(files@, pats, k as nat),
                index@.other_files <= k,
                index@.other_bytes == scanned_bytes(files@, pats, k as nat),
            decreases files.len() - k,
        {
            let ghost before = index@;
            index.take_in(&files[k], exclude);
            let ghost f = files@[k as int];
            assert forall|p: Seq<char>|
                match indexed_at(files@, pats, (k + 1) as nat, p) {
                    Some(file) => #[trigger] index@.notes.contains_key(p) && describes(
                        index@.notes[p],
                        p,
                        file.content@,
                        file.stat,
                    ),
                    None => !index@.notes.contains_key(p),
                } by {
                assert(before.notes.contains_key(p) || !before.notes.contains_key(p));
            }
            k = k + 1;
        }
        let mut paths: Vec<String> = Vec::new();
        let n = index.notes.len();
        let ghost order = index@.order;
        assert(text::strings(paths@) =~= order.take(0));
        let mut i: usize = 0;
        while i < n
            invariant
                i <= n,
                n == order.len(),
                index.wf(),
                order == index@.order,
                text::strings(paths@) == order.take(i as int),
            decreases n - i,
        {
            let ghost before = paths@;
            paths.push(index.notes.key_at(i).clone());
            i = i + 1;
            assert(text::strings(paths@) =~= text::strings(before).push(order[i - 1]));
            assert(order.take(i as int) =~= order.take(i - 1).push(order[i - 1]));
        }
        assert(order.take(i as int) =~= order);
        proof {
            assert forall|i: int| 0 <= i < order.len() implies path::is_tidy(
                #[trigger] order[i],
            ) by {
                index.notes.lemma_keys();
                assert(index.notes.keys().contains(order[i]));
                assert(index.notes@.contains_key(order[i]));
            }
            wikilink::law_built_resolver_is_consistent(order);
        }
        index.link_resolver = wikilink::build_link_resolver(&paths);
        assert forall|i: int| 0 <= i < order.len() && text::is_ascii(#[trigger] order[i]) implies
            wikilink::has_ascii_keys(order[i]) by {
            assert(text::strings(paths@)[i] == paths@[i]@);
        }
        index.rebuild_backlinks();
        index.recompute_stats();
        index
    }
}

// ---------------------------------------------------------------------------
// Queries
// ---------------------------------------------------------------------------

/// Those of the first `k` paths that are notes.
pub open spec fn notes_among(
    notes: Map<Seq<char>, NoteMetadata>,
    paths: Seq<Seq<char>>,
    k: nat,
) -> Seq<NoteMetadata>
    decreases k,
{
    if k == 0 {
        Seq::empty()
    } else if notes.contains_key(paths[k - 1]) {
        notes_among(notes, paths, (k - 1) as nat).push(notes[paths[k - 1]])
    } else {
        notes_among(notes, paths, (k - 1) as nat)
    }
}

/// Whether a tag is `prefix` or nested below it.
pub open spec fn under_tag(tag: Seq<char>, prefix: Seq<char>) -> bool {
    tag == prefix || (prefix + seq!['/']).is_prefix_of(tag)
}

/// The paths of a list after the paths of another one that it lacks.
pub open spec fn joined_members(list: Seq<Seq<char>>, more: Seq<Seq<char>>, k: nat) -> Seq<Seq<char>>
    decreases k,
{
    if k == 0 {
        list
    } else {
        with_member(joined_members(list, more, (k - 1) as nat), more[k - 1])
    }
}

/// The paths that have one of the first `k` tags, as far as these are `prefix` or nested below
/// it; each path once.
pub open spec fn paths_under_tag(
    tags: Map<Seq<char>, Seq<Seq<char>>>,
    order: Seq<Seq<char>>,
    k: nat,
    prefix: Seq<char>,
) -> Seq<Seq<char>>
    decreases k,
{
    if k == 0 {
        Seq::empty()
    } else {
        let before = paths_under_tag(tags, order, (k - 1) as nat, prefix);
        if under_tag(order[k - 1], prefix) {
            joined_members(before, tags[order[k - 1]], tags[order[k - 1]].len())
        } else {
            before
        }
    }
}

/// Whether a link leads nowhere.
pub open spec fn is_broken(resolver: ResolverView, link: LinkView) -> bool {
    link.target.len() > 0 && resolver.resolved(link.target) is None
}

/// The first `k` links of a note that lead nowhere, each with the note.
pub open spec fn broken_of(
    source: Seq<char>,
    links: Seq<LinkView>,
    k: nat,
    resolver: ResolverView,
) -> Seq<(Seq<char>, LinkView)>
    decreases k,
{
    if k == 0 {
        Seq::empty()
    } else if is_broken(resolver, links[k - 1]) {
        broken_of(source, links, (k - 1) as nat, resolver).push((source, links[k - 1]))
    } else {
        broken_of(source, links, (k - 1) as nat, resolver)
    }
}

/// The links of the first `k` notes that lead nowhere.
pub open spec fn broken_among(
    notes: Map<Seq<char>, NoteMetadata>,
    order: Seq<Seq<char>>,
    k: nat,
    resolver: ResolverView,
) -> Seq<(Seq<char>, LinkView)>
    decreases k,
{
    if k == 0 {
        Seq::empty()
    } else {
        let links = parser::link_views(notes[order[k - 1]].links@);
        broken_among(notes, order, (k - 1) as nat, resolver) + broken_of(
            order[k - 1],
            links,
            links.len(),
            resolver,
        )
    }
}

/// The mathematical form of links with the notes that hold them.
pub open spec fn sourced_links(v: Seq<(String, WikiLink)>) -> Seq<(Seq<char>, LinkView)> {
    v.map_values(|x: (String, WikiLink)| (x.0@, x.1@))
}

/// Whether a note has a link that names a note.
pub open spec fn has_outgoing(note: NoteMetadata) -> bool {
    exists|i: int|
        0 <= i < note.links@.len() && (#[trigger] note.links@[i]).target@.len() > 0
}

/// Whether nothing links to a note and it links to nothing.
pub open spec fn is_orphan(v: IndexView, p: Seq<char>) -> bool {
    wikilink::paths_at(v.backlinks, p).len() == 0 && !has_outgoing(v.notes[p])
}

/// The orphans among the first `k` notes.
pub open spec fn orphans(v: IndexView, k: nat) -> Seq<NoteMetadata>
    decreases k,
{
    if k == 0 {
        Seq::empty()
    } else if is_orphan(v, v.order[k - 1]) {
        orphans(v, (k - 1) as nat).push(v.notes[v.order[k - 1]])
    } else {
        orphans(v, (k - 1) as nat)
    }
}

/// The notes that are referred to.
pub open spec fn derefs(v: Seq<&NoteMetadata>) -> Seq<NoteMetadata> {
    v.map_values(|n: &NoteMetadata| *n)
}

/// Copies an optional text.
fn copy_option(o: &Option<String>) -> (r: Option<String>)
    ensures
        r == *o,
{
    match o {
        Some(s) => Some(s.clone()),
        None => None,
    }
}

/// Copies a link.
fn copy_link(l: &WikiLink) -> (r: WikiLink)
    ensures
        r@ == l@,
{
    WikiLink {
        raw: l.raw.clone(),
        target: l.target.clone(),
        heading: copy_option(&l.heading),
        block_ref: copy_option(&l.block_ref),
        alias: copy_option(&l.alias),
        line: l.line,
    }
}

/// Whether a text is empty.
fn is_blank(s: &str) -> (r: bool)
    ensures
        r == (s@.len() == 0),
{
    proof {
        reveal_strlit("");
        assert(s@.len() == 0 ==> s@ =~= ""@);
    }
    text::same_str(s, "")
}

impl VaultIndex {
    /// All notes, with their paths as keys.
    pub fn notes(&self) -> (r: &Table<NoteMetadata>)
        ensures
            r@ == self@.notes,
            r.keys() == self@.order,
            self.wf() ==> r.wf(),
    {
        &self.notes
    }

    /// The note at a path.
    pub fn get_note(&self, path: &str) -> (r: Option<&NoteMetadata>)
        requires
            self.wf(),
        ensures
            match r {
                Some(n) => self@.notes.contains_key(path::tidy(path@)) && *n
                    == self@.notes[path::tidy(path@)],
                None => !self@.notes.contains_key(path::tidy(path@)),
            },
    {
        self.notes.get(&path::tidied(path))
    }

    /// The notes at the paths of a list.
    fn notes_at(&self, paths: &Vec<String>) -> (r: Vec<&NoteMetadata>)
        requires
            self.wf(),
        ensures
            derefs(r@) == notes_among(self@.notes, text::strings(paths@), paths@.len()),
    {
        let ghost all = text::strings(paths@);
        let mut r: Vec<&NoteMetadata> = Vec::new();
        assert(derefs(r@) =~= Seq::<NoteMetadata>::empty());
        let mut k: usize = 0;
        while k < paths.len()
            invariant
                k <= paths.len(),
                self.wf(),
                all == text::strings(paths@),
                derefs(r@) == notes_among(self@.notes, all, k as nat),
            decreases paths.len() - k,
        {
            assert(all[k as int] == paths@[k as int]@);
            let ghost before = r@;
            if let Some(note) = self.notes.get(&paths[k]) {
                r.push(note);
                assert(derefs(r@) =~= derefs(before).push(*note));
            }
            k = k + 1;
        }
        r
    }

    /// The notes that have a tag.
    pub fn notes_with_tag(&self, tag: &str) -> (r: Vec<&NoteMetadata>)
        requires
            self.wf(),
        ensures
            derefs(r@) == notes_among(
                self@.notes,
                wikilink::paths_at(self@.tags, tag@),
                wikilink::paths_at(self@.tags, tag@).len(),
            ),
    {
        match self.tags.get(tag) {
            Some(paths) => {
                assert(text::strings(paths@).len() == paths@.len());
                self.notes_at(paths)
            },
            None => {
                let r: Vec<&NoteMetadata> = Vec::new();
                assert(derefs(r@) =~= Seq::<NoteMetadata>::empty());
                r
            },
        }
    }

    /// The notes that have a tag or one of its children (`inbox` matches `inbox/read`), each
    /// note once.
    pub fn notes_with_tag_prefix(&self, prefix: &str) -> (r: Vec<&NoteMetadata>)
        requires
            self.wf(),
        ensures
            ({
                let paths = paths_under_tag(
                    self@.tags,
                    self@.tag_order,
                    self@.tag_order.len(),
                    prefix@,
                );
                derefs(r@) == notes_among(self@.notes, paths, paths.len())
            }),
    {
        let ghost v = self@;
        let exact = text::to_chars(prefix);
        let mut nested = text::copy_chars(&exact);
        nested.push('/');
        assert(nested@ =~= prefix@ + seq!['/']);
        let mut paths: Vec<String> = Vec::new();
        assert(text::strings(paths@) =~= Seq::<Seq<char>>::empty());
        let n = self.tags.len();
        let mut k: usize = 0;
        while k < n
            invariant
                k <= n,
                n == self.tags.keys().len(),
                self.wf(),
                self@ == v,
                exact@ == prefix@,
                nested@ == prefix@ + seq!['/'],
                text::strings(paths@) == paths_under_tag(v.tags, v.tag_order, k as nat, prefix@),
            decreases n - k,
        {
            let tag = text::to_chars(self.tags.key_at(k));
            if text::same_chars(&tag, &exact) || text::has_prefix(&tag, &nested) {
                let list = self.tags.value_at(k);
                let ghost before = text::strings(paths@);
                let ghost all = text::strings(list@);
                assert(v.tags[v.tag_order[k as int]] == all);
                let mut i: usize = 0;
                while i < list.len()
                    invariant
                        i <= list.len(),
                        all == text::strings(list@),
                        text::strings(paths@) == joined_members(before, all, i as nat),
                    decreases list.len() - i,
                {
                    assert(all[i as int] == list@[i as int]@);
                    if !is_listed(&paths, &list[i]) {
                        let ghost at_i = paths@;
                        paths.push(list[i].clone());
                        assert(text::strings(paths@) =~= text::strings(at_i).push(all[i as int]));
                    }
                    i = i + 1;
                }
                assert(all.len() == list@.len());
            }
            k = k + 1;
        }
        assert(text::strings(paths@).len() == paths@.len());
        self.notes_at(&paths)
    }

    /// The notes that link to a note.
    pub fn backlinks_to(&self, path: &str) -> (r: Vec<&NoteMetadata>)
        requires
            self.wf(),
        ensures
            derefs(r@) == notes_among(
                self@.notes,
                wikilink::paths_at(self@.backlinks, path::tidy(path@)),
                wikilink::paths_at(self@.backlinks, path::tidy(path@)).len(),
            ),
    {
        match self.backlinks.get(&path::tidied(path)) {
            Some(paths) => {
                assert(text::strings(paths@).len() == paths@.len());
                self.notes_at(paths)
            },
            None => {
                let r: Vec<&NoteMetadata> = Vec::new();
                assert(derefs(r@) =~= Seq::<NoteMetadata>::empty());
                r
            },
        }
    }

    /// The links of a note; none if there is no such note.
    pub fn outgoing_links(&self, path: &str) -> (r: Vec<&WikiLink>)
        requires
            self.wf(),
        ensures
            r@.map_values(|l: &WikiLink| *l) == if self@.notes.contains_key(path::tidy(path@)) {
                self@.notes[path::tidy(path@)].links@
            } else {
                Seq::empty()
            },
    {
        let mut r: Vec<&WikiLink> = Vec::new();
        if let Some(note) = self.notes.get(&path::tidied(path)) {
            let mut k: usize = 0;
            while k < note.links.len()
                invariant
                    k <= note.links.len(),
                    r@.len() == k,
                    forall|i: int| 0 <= i < k ==> *(#[trigger] r@[i]) == note.links@[i],
                decreases note.links.len() - k,
            {
                r.push(&note.links[k]);
                k = k + 1;
            }
            assert(r@.map_values(|l: &WikiLink| *l) =~= note.links@);
        } else {
            assert(r@.map_values(|l: &WikiLink| *l) =~= Seq::<WikiLink>::empty());
        }
        r
    }

    /// The links that lead nowhere, each with the note that holds it.
    pub fn broken_links(&self) -> (r: Vec<(String, WikiLink)>)
        requires
            self.wf(),
        ensures
            sourced_links(r@) == broken_among(
                self@.notes,
                self@.order,
                self@.order.len(),
                self@.links,
            ),
    {
        let ghost v = self@;
        let mut r: Vec<(String, WikiLink)> = Vec::new();
        assert(sourced_links(r@) =~= Seq::<(Seq<char>, LinkView)>::empty());
        let n = self.notes.len();
        let mut k: usize = 0;
        while k < n
            invariant
                k <= n,
                n == self.notes.keys().len(),
                self.wf(),
                self@ == v,
                sourced_links(r@) == broken_among(v.notes, v.order, k as nat, v.links),
            decreases n - k,
        {
            let source = self.notes.key_at(k);
            let note = self.notes.value_at(k);
            let ghost links = parser::link_views(note.links@);
            assert(links.len() == note.links@.len());
            let ghost before = sourced_links(r@);
            assert(before =~= before + broken_of(source@, links, 0, v.links));
            let mut i: usize = 0;
            while i < note.links.len()
                invariant
                    i <= note.links.len(),
                    self@ == v,
                    links == parser::link_views(note.links@),
                    sourced_links(r@) == before + broken_of(source@, links, i as nat, v.links),
                decreases note.links.len() - i,
            {
                let link = &note.links[i];
                assert(links[i as int] == link@);
                if !is_blank(&link.target) && !self.link_resolver.is_resolved(&link.target) {
                    let ghost at_i = r@;
                    r.push((source.clone(), copy_link(link)));
                    assert(sourced_links(r@) =~= sourced_links(at_i).push((source@, link@)));
                    assert(sourced_links(r@) =~= before + broken_of(
                        source@,
                        links,
                        (i + 1) as nat,
                        v.links,
                    ));
                }
                i = i + 1;
            }
            k = k + 1;
        }
        r
    }

    /// The note that a link target means.
    pub fn resolve_link(&self, target: &str) -> (r: Option<String>)
        ensures
            match r {
                Some(p) => self@.links.resolved(target@) == Some(p@),
                None => self@.links.resolved(target@) is None,
            },
            text::is_ascii(target@) ==> self@.links.resolved(target@) == wikilink::only(
                self@.links.ascii_candidates(target@),
            ),
    {
        self.link_resolver.resolve(target)
    }

    /// The notes that nothing links to and that link to nothing.
    pub fn orphan_notes(&self) -> (r: Vec<&NoteMetadata>)
        requires
            self.wf(),
        ensures
            derefs(r@) == orphans(self@, self@.order.len()),
    {
        let ghost v = self@;
        let mut r: Vec<&NoteMetadata> = Vec::new();
        assert(derefs(r@) =~= Seq::<NoteMetadata>::empty());
        let n = self.notes.len();
        let mut k: usize = 0;
        while k < n
            invariant
                k <= n,
                n == self.notes.keys().len(),
                self.wf(),
                self@ == v,
                derefs(r@) == orphans(v, k as nat),
            decreases n - k,
        {
            let p = self.notes.key_at(k);
            let note = self.notes.value_at(k);
            let incoming = match self.backlinks.get(p) {
                Some(list) => {
                    assert(text::strings(list@).len() == list@.len());
                    list.len() > 0
                },
                None => false,
            };
            let mut outgoing = false;
            let mut i: usize = 0;
            while i < note.links.len()
                invariant
                    i <= note.links.len(),
                    outgoing == exists|j: int|
                        0 <= j < i && (#[trigger] note.links@[j]).target@.len() > 0,
                decreases note.links.len() - i,
            {
                let ghost was = outgoing;
                if !is_blank(&note.links[i].target) {
                    outgoing = true;
                    assert(note.links@[i as int].target@.len() > 0);
                }
                i = i + 1;
                proof {
                    if was {
                        let j = choose|j: int|
                            0 <= j < i - 1 && (#[trigger] note.links@[j]).target@.len() > 0;
                        assert(0 <= j < i && note.links@[j].target@.len() > 0);
                    }
                }
            }
            let ghost before = r@;
            if !incoming && !outgoing {
                r.push(note);
                assert(derefs(r@) =~= derefs(before).push(*note));
            }
            k = k + 1;
        }
        r
    }

    /// The counts.
    pub fn stats(&self) -> (r: &VaultStats)
        ensures
            *r == self@.stats,
    {
        &self.stats
    }
}

// ---------------------------------------------------------------------------
// Search in front matter
// ---------------------------------------------------------------------------

/// What is asked of a field of the front matter.
pub enum FieldQuery {
    /// The field is there.
    Exists,
    /// The field is this value, or an array that has it.
    Equals(JsonView),
    /// The field is an array that has this value, a string in which this string occurs, or else
    /// this value.
    Contains(JsonView),
}

/// Whether an array has a value.
pub open spec fn has_element(items: Seq<JsonView>, value: JsonView) -> bool {
    exists|i: int| 0 <= i < items.len() && json::json_equal(#[trigger] items[i], value)
}

/// Whether the value of a field answers a query.
pub open spec fn answers(field: JsonView, query: FieldQuery) -> bool {
    match query {
        FieldQuery::Exists => true,
        FieldQuery::Equals(value) => json::json_equal(field, value) || match field {
            JsonView::Array(items) => has_element(items, value),
            _ => false,
        },
        FieldQuery::Contains(value) => match field {
            JsonView::Array(items) => has_element(items, value),
            JsonView::Str(haystack) => match value {
                JsonView::Str(needle) => text::find(haystack, needle) is Some,
                _ => false,
            },
            _ => json::json_equal(field, value),
        },
    }
}

/// Whether a note has a field that answers a query.
pub open spec fn note_answers(note: NoteMetadata, field: Seq<char>, query: FieldQuery) -> bool {
    match note.frontmatter {
        Some(fm) => match frontmatter::field_of(json::json_view(fm), field) {
            Some(v) => answers(v, query),
            None => false,
        },
        None => false,
    }
}

/// Those of the first `k` notes that have a field that answers a query.
pub open spec fn answering(v: IndexView, k: nat, field: Seq<char>, query: FieldQuery) -> Seq<
    NoteMetadata,
>
    decreases k,
{
    if k == 0 {
        Seq::empty()
    } else if note_answers(v.notes[v.order[k - 1]], field, query) {
        answering(v, (k - 1) as nat, field, query).push(v.notes[v.order[k - 1]])
    } else {
        answering(v, (k - 1) as nat, field, query)
    }
}

/// A question about a field of the front matter.
enum FieldTest<'a> {
    Exists,
    Equals(&'a serde_json::Value),
    Contains(&'a serde_json::Value),
}

/// The mathematical form of a [`FieldTest`].
spec fn query_of(test: FieldTest<'_>) -> FieldQuery {
    match test {
        FieldTest::Exists => FieldQuery::Exists,
        FieldTest::Equals(v) => FieldQuery::Equals(json::json_view(*v)),
        FieldTest::Contains(v) => FieldQuery::Contains(json::json_view(*v)),
    }
}

/// Whether an array has a value.
fn array_contains(items: &Vec<serde_json::Value>, value: &serde_json::Value) -> (r: bool)
    ensures
        r == has_element(json::json_views(items@), json::json_view(*value)),
{
    let ghost all = json::json_views(items@);
    let mut k: usize = 0;
    while k < items.len()
        invariant
            k <= items.len(),
            all == json::json_views(items@),
            forall|i: int|
                0 <= i < k ==> !json::json_equal(#[trigger] all[i], json::json_view(*value)),
        decreases items.len() - k,
    {
        assert(all[k as int] == json::json_view(items@[k as int]));
        if json::json_eq(&items[k], value) {
            return true;
        }
        k = k + 1;
    }
    assert(all.len() == items@.len());
    false
}

/// Whether a field of front matter is a value, or an array that has it.
pub fn frontmatter_field_matches(
    fm: &serde_json::Value,
    field: &str,
    value: &serde_json::Value,
) -> (r: bool)
    ensures
        r == match frontmatter::field_of(json::json_view(*fm), field@) {
            Some(v) => answers(v, FieldQuery::Equals(json::json_view(*value))),
            None => false,
        },
{
    match frontmatter::get_field(fm, field) {
        Some(v) => {
            if json::json_eq(v, value) {
                return true;
            }
            match json::json_kind(v) {
                JsonKind::Array(items) => array_contains(items, value),
                _ => false,
            }
        },
        None => false,
    }
}

/// Whether a field of front matter contains a value: an array by its elements, a string by its
/// parts, anything else by being that value.
pub fn frontmatter_field_contains(
    fm: &serde_json::Value,
    field: &str,
    value: &serde_json::Value,
) -> (r: bool)
    ensures
        r == match frontmatter::field_of(json::json_view(*fm), field@) {
            Some(v) => answers(v, FieldQuery::Contains(json::json_view(*value))),
            None => false,
        },
{
    match frontmatter::get_field(fm, field) {
        Some(v) => match json::json_kind(v) {
            JsonKind::Array(items) => array_contains(items, value),
            JsonKind::Str(haystack) => match json::json_kind(value) {
                JsonKind::Str(needle) => {
                    let h = text::to_chars(haystack);
                    let n = text::to_chars(needle);
                    text::find_in(&h, &n).is_some()
                },
                _ => false,
            },
            _ => json::json_eq(v, value),
        },
        None => false,
    }
}

impl VaultIndex {
    /// The notes that have a field that passes a test.
    fn notes_passing(&self, field: &str, test: FieldTest<'_>) -> (r: Vec<&NoteMetadata>)
        requires
            self.wf(),
        ensures
            derefs(r@) == answering(self@, self@.order.len(), field@, query_of(test)),
    {
        let ghost v = self@;
        let ghost q = query_of(test);
        let mut r: Vec<&NoteMetadata> = Vec::new();
        assert(derefs(r@) =~= Seq::<NoteMetadata>::empty());
        let n = self.notes.len();
        let mut k: usize = 0;
        while k < n
            invariant
                k <= n,
                n == self.notes.keys().len(),
                self.wf(),
                self@ == v,
                q == query_of(test),
                derefs(r@) == answering(v, k as nat, field@, q),
            decreases n - k,
        {
            let note = self.notes.value_at(k);
            let passes = match &note.frontmatter {
                Some(fm) => match &test {
                    FieldTest::Exists => frontmatter::get_field(fm, field).is_some(),
                    FieldTest::Equals(value) => frontmatter_field_matches(fm, field, value),
                    FieldTest::Contains(value) => frontmatter_field_contains(fm, field, value),
                },
                None => false,
            };
            let ghost before = r@;
            if passes {
                r.push(note);
                assert(derefs(r@) =~= derefs(before).push(*note));
            }
            k = k + 1;
        }
        r
    }

    /// Finds notes by a front matter field: the field is the value, or an array that has it.
    pub fn search_frontmatter(&self, field: &str, value: &serde_json::Value) -> (r: Vec<
        &NoteMetadata,
    >)
        requires
            self.wf(),
        ensures
            derefs(r@) == answering(
                self@,
                self@.order.len(),
                field@,
                FieldQuery::Equals(json::json_view(*value)),
            ),
    {
        self.notes_passing(field, FieldTest::Equals(value))
    }

    /// Finds notes where a front matter field exists, regardless of value.
    pub fn search_frontmatter_exists(&self, field: &str) -> (r: Vec<&NoteMetadata>)
        requires
            self.wf(),
        ensures
            derefs(r@) == answering(self@, self@.order.len(), field@, FieldQuery::Exists),
    {
        self.notes_passing(field, FieldTest::Exists)
    }

    /// Finds notes where a front matter field contains a value: an array by its elements, a
    /// string by its parts, anything else by being that value.
    pub fn search_frontmatter_contains(&self, field: &str, value: &serde_json::Value) -> (r: Vec<
        &NoteMetadata,
    >)
        requires
            self.wf(),
        ensures
            derefs(r@) == answering(
                self@,
                self@.order.len(),
                field@,
                FieldQuery::Contains(json::json_view(*value)),
            ),
    {
        self.notes_passing(field, FieldTest::Contains(value))
    }
}

// ---------------------------------------------------------------------------
// Search in text
// ---------------------------------------------------------------------------

/// A match with the text around it. Up to `context_len` bytes on either side are shown, and
/// more where a character would be cut.
pub open spec fn match_in_context(
    content: Seq<char>,
    start: int,
    end: int,
    context_len: int,
) -> MatchView {
    let from = text::chars_within(
        content,
        if start < context_len {
            0
        } else {
            start - context_len
        },
    );
    let to = text::chars_before(
        content,
        if end + context_len > usize::MAX {
            usize::MAX as int
        } else {
            end + context_len
        },
    );
    MatchView {
        line: parser::line_at(content, start),
        context: content.subrange(from as int, to as int),
        match_start: (text::chars_before(content, start) - from) as nat,
        match_end: (text::chars_before(content, end) - from) as nat,
    }
}

/// The matches of a text with the text around them.
pub open spec fn matches_in_context(
    content: Seq<char>,
    found: Seq<(usize, usize)>,
    context_len: int,
) -> Seq<MatchView> {
    found.map_values(
        |m: (usize, usize)| match_in_context(content, m.0 as int, m.1 as int, context_len),
    )
}

/// The mathematical form of matches.
pub open spec fn match_views(v: Seq<SearchMatch>) -> Seq<MatchView> {
    v.map_values(|m: SearchMatch| m@)
}

/// Extracts the context of a match, which is given by the bytes at which it starts and ends.
pub fn extract_match_context(
    content: &[char],
    match_byte_start: usize,
    match_byte_end: usize,
    context_len: usize,
) -> (r: SearchMatch)
    requires
        match_byte_start <= match_byte_end,
    ensures
        r@ == match_in_context(
            content@,
            match_byte_start as int,
            match_byte_end as int,
            context_len as int,
        ),
{
    let context_start = match_byte_start.saturating_sub(context_len);
    let context_end = match_byte_end.saturating_add(context_len);
    let from = text::char_index_within(content, context_start);
    let to = text::char_index(content, context_end);
    let start = text::char_index(content, match_byte_start);
    let end = text::char_index(content, match_byte_end);
    proof {
        text::lemma_chars_within(content@, context_start as int, match_byte_start as int);
        text::lemma_chars_before(content@, match_byte_start as int, match_byte_end as int);
        text::lemma_chars_before(content@, match_byte_end as int, context_end as int);
    }
    let line = parser::byte_offset_to_line(content, match_byte_start);
    let context = vstd::slice::slice_subrange(content, from, to);
    SearchMatch {
        line,
        context: text::from_chars(context),
        match_start: start - from,
        match_end: end - from,
    }
}

/// The matches at these bytes, each with its context.
pub fn contexts_of(content: &[char], found: &Vec<(usize, usize)>, context_len: usize) -> (r: Vec<
    SearchMatch,
>)
    requires
        forall|i: int| 0 <= i < found@.len() ==> (#[trigger] found@[i]).0 <= found@[i].1,
    ensures
        match_views(r@) == matches_in_context(content@, found@, context_len as int),
{
    let mut r: Vec<SearchMatch> = Vec::new();
    let mut k: usize = 0;
    while k < found.len()
        invariant
            k <= found.len(),
            forall|i: int| 0 <= i < found@.len() ==> (#[trigger] found@[i]).0 <= found@[i].1,
            r@.len() == k,
            forall|i: int|
                0 <= i < k ==> (#[trigger] r@[i])@ == match_in_context(
                    content@,
                    found@[i].0 as int,
                    found@[i].1 as int,
                    context_len as int,
                ),
        decreases found.len() - k,
    {
        let (start, end) = found[k];
        r.push(extract_match_context(content, start, end, context_len));
        k = k + 1;
    }
    assert(match_views(r@) =~= matches_in_context(content@, found@, context_len as int));
    r
}

/// Where whole matches lie.
pub open spec fn whole_matches(all: Seq<Seq<Option<(usize, usize)>>>) -> Seq<(usize, usize)> {
    all.map_values(
        |groups: Seq<Option<(usize, usize)>>|
            match groups[0] {
                Some(m) => m,
                None => (0, 0),
            },
    )
}

/// The matches of a regular expression in a text, each with its context.
pub(crate) fn search_one(re: &regex::Regex, content: &str, context_len: usize) -> (r: Vec<SearchMatch>)
    ensures
        match_views(r@) == matches_in_context(
            content@,
            whole_matches(pattern::captures_of(pattern::regex_pattern(*re), content@)),
            context_len as int,
        ),
{
    let all = pattern::captures_all(re, content);
    let ghost views = pattern::spans(all@);
    let mut found: Vec<(usize, usize)> = Vec::new();
    let mut k: usize = 0;
    while k < all.len()
        invariant
            k <= all.len(),
            views == pattern::spans(all@),
            pattern::spans_fit(views, text::byte_len(content@)),
            found@.len() == k,
            forall|i: int| 0 <= i < k ==> #[trigger] found@[i] == whole_matches(views)[i],
            forall|i: int| 0 <= i < k ==> (#[trigger] found@[i]).0 <= found@[i].1,
        decreases all.len() - k,
    {
        assert(views[k as int] == all@[k as int]@);
        let groups = &all[k];
        assert(views[k as int].len() > 0);
        assert(views[k as int][0] is Some);
        let m = match groups[0] {
            Some(m) => m,
            None => (0, 0),
        };
        found.push(m);
        k = k + 1;
    }
    assert(found@ =~= whole_matches(views));
    let chars = text::to_chars(content);
    contexts_of(&chars, &found, context_len)
}

/// The mathematical form of search results.
pub open spec fn result_views(v: Seq<SearchResult>) -> Seq<(Seq<char>, Seq<MatchView>)> {
    v.map_values(|r: SearchResult| (r.path@, match_views(r.matches@)))
}

/// What a pattern finds in the first `k` notes, as far as they could be read; notes without a
/// match are left out.
pub open spec fn found_among(
    order: Seq<Seq<char>>,
    contents: Map<Seq<char>, String>,
    k: nat,
    regex: Seq<char>,
    context_len: int,
) -> Seq<(Seq<char>, Seq<MatchView>)>
    decreases k,
{
    if k == 0 {
        Seq::empty()
    } else {
        let before = found_among(order, contents, (k - 1) as nat, regex, context_len);
        let p = order[k - 1];
        if contents.contains_key(p) {
            let content = contents[p]@;
            let found = matches_in_context(
                content,
                whole_matches(pattern::captures_of(regex, content)),
                context_len,
            );
            if found.len() > 0 {
                before.push((p, found))
            } else {
                before
            }
        } else {
            before
        }
    }
}

/// The pattern by which a text is searched for without regard to letter case.
pub open spec fn text_pattern(query: Seq<char>) -> Seq<char> {
    "(?i)"@ + pattern::escaped(query)
}

/// The result of a search for a pattern. The error names `shown` as the pattern.
pub open spec fn search_outcome(
    r: Result<Vec<SearchResult>, VaultError>,
    v: IndexView,
    contents: Map<Seq<char>, String>,
    regex: Seq<char>,
    shown: Seq<char>,
    context_len: int,
) -> bool {
    match r {
        Ok(list) => pattern::regex_error(regex) is None && result_views(list@) == found_among(
            v.order,
            contents,
            v.order.len(),
            regex,
            context_len,
        ),
        Err(e) => match pattern::regex_error(regex) {
            Some(m) => e@ == (ErrorView::InvalidRegex { pattern: shown, message: m }),
            None => false,
        },
    }
}

impl VaultIndex {
    /// Searches all indexed notes, as far as they could be read.
    fn search_with_regex(&self, contents: &Table<String>, re: &regex::Regex, context_len: usize)
        -> (r: Vec<SearchResult>)
        requires
            self.wf(),
            contents.wf(),
        ensures
            result_views(r@) == found_among(
                self@.order,
                contents@,
                self@.order.len(),
                pattern::regex_pattern(*re),
                context_len as int,
            ),
    {
        let ghost v = self@;
        let ghost pat = pattern::regex_pattern(*re);
        let mut r: Vec<SearchResult> = Vec::new();
        assert(result_views(r@) =~= Seq::<(Seq<char>, Seq<MatchView>)>::empty());
        let n = self.notes.len();
        let mut k: usize = 0;
        while k < n
            invariant
                k <= n,
                n == self.notes.keys().len(),
                self.wf(),
                contents.wf(),
                self@ == v,
                pat == pattern::regex_pattern(*re),
                result_views(r@) == found_among(
                    v.order,
                    contents@,
                    k as nat,
                    pat,
                    context_len as int,
                ),
            decreases n - k,
        {
            let p = self.notes.key_at(k);
            if let Some(content) = contents.get(p) {
                let matches = search_one(re, content, context_len);
                assert(match_views(matches@).len() == matches@.len());
                if matches.len() > 0 {
                    let ghost before = r@;
                    let ghost ms = match_views(matches@);
                    r.push(SearchResult { path: p.clone(), matches });
                    assert(result_views(r@) =~= result_views(before).push((p@, ms)));
                }
            }
            k = k + 1;
        }
        r
    }

    /// Searches for a text in all indexed notes, without regard to letter case. `contents`
    /// holds the notes that could be read, by path.
    pub fn search_text(&self, contents: &Table<String>, query: &str, context_len: usize) -> (r:
        Result<Vec<SearchResult>, VaultError>)
        requires
            self.wf(),
            contents.wf(),
        ensures
            if query@.len() == 0 {
                r matches Ok(list) && list@.len() == 0
            } else {
                search_outcome(
                    r,
                    self@,
                    contents@,
                    text_pattern(query@),
                    query@,
                    context_len as int,
                )
            },
    {
        if is_blank(query) {
            return Ok(Vec::new());
        }
        let mut pat = "(?i)".to_owned();
        pat.push_str(&pattern::escape(query));
        match pattern::compile(&pat) {
            Ok(re) => Ok(self.search_with_regex(contents, &re, context_len)),
            Err(message) => Err(VaultError::InvalidRegex { pattern: query.to_owned(), message }),
        }
    }

    /// Searches for a regular expression in all indexed notes. `contents` holds the notes that
    /// could be read, by path.
    pub fn search_regex(&self, contents: &Table<String>, pattern: &str, context_len: usize) -> (r:
        Result<Vec<SearchResult>, VaultError>)
        requires
            self.wf(),
            contents.wf(),
        ensures
            search_outcome(r, self@, contents@, pattern@, pattern@, context_len as int),
    {
        match pattern::compile(pattern) {
            Ok(re) => Ok(self.search_with_regex(contents, &re, context_len)),
            Err(message) => Err(VaultError::InvalidRegex { pattern: pattern.to_owned(), message }),
        }
    }
}

} // verus!
