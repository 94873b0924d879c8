//! What holds of the vault index as a whole.
use crate::exclude;
use crate::frontmatter;
use crate::fs;
use crate::index;
use crate::index::{FieldQuery, IndexView, NoteFile, ScannedFile};
use crate::json;
use crate::json::JsonView;
use crate::models::{FileStat, Heading, LinkView, MatchView, NoteMetadata};
use crate::parser;
use crate::path;
use crate::pattern;
use crate::text;
use crate::wikilink;
use crate::wikilink::ResolverView;
use vstd::prelude::*;

verus! {

// ---------------------------------------------------------------------------
// Lists by key
// ---------------------------------------------------------------------------

/// Whether a path is in the list at a key.
pub open spec fn listed(
    lists: Map<Seq<char>, Seq<Seq<char>>>,
    key: Seq<char>,
    p: Seq<char>,
) -> bool {
    wikilink::paths_at(lists, key).contains(p)
}

/// Whether no list is empty and no list has a path twice.
pub open spec fn lists_are_tidy(lists: Map<Seq<char>, Seq<Seq<char>>>) -> bool {
    forall|key: Seq<char>| #[trigger]
        lists.contains_key(key) ==> lists[key].len() > 0 && lists[key].no_duplicates()
}

/// Whether one of the first `k` keys is this key.
pub open spec fn among(keys: Seq<Seq<char>>, k: nat, key: Seq<char>) -> bool {
    exists|i: int| 0 <= i < k && #[trigger] keys[i] == key
}

proof fn lemma_others(list: Seq<Seq<char>>, p: Seq<char>)
    ensures
        forall|q: Seq<char>| #[trigger]
            wikilink::others(list, p).contains(q) <==> list.contains(q) && q != p,
        list.no_duplicates() ==> wikilink::others(list, p).no_duplicates(),
    decreases list.len(),
{
    let all = wikilink::others(list, p);
    if list.len() > 0 {
        let d = list.drop_last();
        let less = wikilink::others(d, p);
        lemma_others(d, p);
        assert(list =~= d.push(list.last()));
        assert forall|q: Seq<char>| #[trigger] all.contains(q) <==> list.contains(q) && q
            != p by {
            lemma_push_contains(d, list.last(), q);
            lemma_push_contains(less, list.last(), q);
            assert(less.contains(q) <==> d.contains(q) && q != p);
        }
        if list.no_duplicates() {
            assert(d.no_duplicates());
            if list.last() != p {
                if less.contains(list.last()) {
                    assert(d.contains(list.last()));
                    let i = choose|i: int| 0 <= i < d.len() && d[i] == list.last();
                    assert(list[i] == list[list.len() - 1]);
                }
                lemma_push_no_duplicates(less, list.last());
            }
        }
    }
}

proof fn lemma_push_contains(list: Seq<Seq<char>>, p: Seq<char>, q: Seq<char>)
    ensures
        list.push(p).contains(q) <==> list.contains(q) || q == p,
{
    let all = list.push(p);
    if list.contains(q) {
        let i = choose|i: int| 0 <= i < list.len() && list[i] == q;
        assert(all[i] == q);
    }
    if q == p {
        assert(all[list.len() as int] == q);
    }
    if all.contains(q) {
        let i = choose|i: int| 0 <= i < all.len() && all[i] == q;
        if i < list.len() {
            assert(list[i] == q);
        }
    }
}

proof fn lemma_push_no_duplicates(list: Seq<Seq<char>>, p: Seq<char>)
    requires
        list.no_duplicates(),
        !list.contains(p),
    ensures
        list.push(p).no_duplicates(),
{
    let all = list.push(p);
    assert forall|i: int, j: int| 0 <= i < all.len() && 0 <= j < all.len() && i != j implies all[i]
        != all[j] by {
        if i < list.len() {
            assert(list.contains(list[i]));
        }
        if j < list.len() {
            assert(list.contains(list[j]));
        }
    }
}

proof fn lemma_with_member(list: Seq<Seq<char>>, p: Seq<char>)
    ensures
        forall|q: Seq<char>| #[trigger]
            index::with_member(list, p).contains(q) <==> list.contains(q) || q == p,
        list.no_duplicates() ==> index::with_member(list, p).no_duplicates(),
        index::with_member(list, p).len() > 0,
{
    assert forall|q: Seq<char>| #[trigger]
        index::with_member(list, p).contains(q) <==> list.contains(q) || q == p by {
        lemma_push_contains(list, p, q);
    }
    if list.contains(p) {
        let i = choose|i: int| 0 <= i < list.len() && list[i] == p;
    } else if list.no_duplicates() {
        lemma_push_no_duplicates(list, p);
    }
}

proof fn lemma_with_listed(lists: Map<Seq<char>, Seq<Seq<char>>>, key: Seq<char>, p: Seq<char>)
    ensures
        ({
            let after = index::with_listed(lists, key, p);
            &&& forall|t: Seq<char>, q: Seq<char>| #[trigger]
                listed(after, t, q) <==> listed(lists, t, q) || (t == key && q == p)
            &&& lists_are_tidy(lists) ==> lists_are_tidy(after)
        }),
{
    let list = wikilink::paths_at(lists, key);
    lemma_with_member(list, p);
    assert forall|t: Seq<char>, q: Seq<char>| #[trigger]
        listed(index::with_listed(lists, key, p), t, q) <==> listed(lists, t, q) || (t == key && q
            == p) by {
        assert(index::with_member(list, p).contains(q) <==> list.contains(q) || q == p);
    }
}

proof fn lemma_without_listed(lists: Map<Seq<char>, Seq<Seq<char>>>, key: Seq<char>, p: Seq<char>)
    ensures
        ({
            let after = index::without_listed(lists, key, p);
            &&& forall|t: Seq<char>, q: Seq<char>| #[trigger]
                listed(after, t, q) <==> listed(lists, t, q) && !(t == key && q == p)
            &&& lists_are_tidy(lists) ==> lists_are_tidy(after)
        }),
{
    let list = wikilink::paths_at(lists, key);
    let left = wikilink::others(list, p);
    lemma_others(list, p);
    let after = index::without_listed(lists, key, p);
    assert forall|t: Seq<char>, q: Seq<char>| #[trigger]
        listed(after, t, q) <==> listed(lists, t, q) && !(t == key && q == p) by {
        assert(left.contains(q) <==> list.contains(q) && q != p);
        if t == key {
            assert(wikilink::paths_at(after, t) =~= left);
        } else {
            assert(wikilink::paths_at(after, t) == wikilink::paths_at(lists, t));
        }
    }
}

pub proof fn lemma_listed_under(
    lists: Map<Seq<char>, Seq<Seq<char>>>,
    keys: Seq<Seq<char>>,
    k: nat,
    p: Seq<char>,
)
    ensures
        ({
            let after = index::listed_under(lists, keys, k, p);
            &&& forall|t: Seq<char>, q: Seq<char>| #[trigger]
                listed(after, t, q) <==> listed(lists, t, q) || (q == p && among(keys, k, t))
            &&& lists_are_tidy(lists) ==> lists_are_tidy(after)
        }),
    decreases k,
{
    if k > 0 {
        let less = index::listed_under(lists, keys, (k - 1) as nat, p);
        lemma_listed_under(lists, keys, (k - 1) as nat, p);
        lemma_with_listed(less, keys[k - 1], p);
        assert forall|t: Seq<char>, q: Seq<char>| #[trigger]
            listed(index::listed_under(lists, keys, k, p), t, q) <==> listed(lists, t, q) || (q == p
                && among(keys, k, t)) by {
            lemma_among(keys, k, t);
            assert(listed(less, t, q) <==> listed(lists, t, q) || (q == p && among(
                keys,
                (k - 1) as nat,
                t,
            )));
        }
    }
}

pub proof fn lemma_unlisted_under(
    lists: Map<Seq<char>, Seq<Seq<char>>>,
    keys: Seq<Seq<char>>,
    k: nat,
    p: Seq<char>,
)
    ensures
        ({
            let after = index::unlisted_under(lists, keys, k, p);
            &&& forall|t: Seq<char>, q: Seq<char>| #[trigger]
                listed(after, t, q) <==> listed(lists, t, q) && !(q == p && among(keys, k, t))
            &&& lists_are_tidy(lists) ==> lists_are_tidy(after)
        }),
    decreases k,
{
    if k > 0 {
        let less = index::unlisted_under(lists, keys, (k - 1) as nat, p);
        lemma_unlisted_under(lists, keys, (k - 1) as nat, p);
        lemma_without_listed(less, keys[k - 1], p);
        assert forall|t: Seq<char>, q: Seq<char>| #[trigger]
            listed(index::unlisted_under(lists, keys, k, p), t, q) <==> listed(lists, t, q) && !(q
                == p && among(keys, k, t)) by {
            lemma_among(keys, k, t);
            assert(listed(less, t, q) <==> listed(lists, t, q) && !(q == p && among(
                keys,
                (k - 1) as nat,
                t,
            )));
        }
    }
}

proof fn lemma_among(keys: Seq<Seq<char>>, k: nat, key: Seq<char>)
    requires
        k > 0,
    ensures
        among(keys, k, key) <==> among(keys, (k - 1) as nat, key) || keys[k - 1] == key,
{
    if among(keys, (k - 1) as nat, key) {
        let i = choose|i: int| 0 <= i < k - 1 && #[trigger] keys[i] == key;
        assert(0 <= i < k && keys[i] == key);
    }
    if keys[k - 1] == key {
        assert(0 <= k - 1 < k);
    }
    if among(keys, k, key) {
        let i = choose|i: int| 0 <= i < k && #[trigger] keys[i] == key;
        if i < k - 1 {
            assert(0 <= i < k - 1 && keys[i] == key);
        }
    }
}

// ---------------------------------------------------------------------------
// Tags
// ---------------------------------------------------------------------------

/// Whether the notes listed under a tag are just those that have it.
pub open spec fn tags_agree(
    notes: Map<Seq<char>, NoteMetadata>,
    tags: Map<Seq<char>, Seq<Seq<char>>>,
) -> bool {
    &&& lists_are_tidy(tags)
    &&& forall|t: Seq<char>, p: Seq<char>| #[trigger]
        listed(tags, t, p) <==> notes.contains_key(p) && text::strings(notes[p].tags@).contains(t)
}

proof fn lemma_among_all(keys: Seq<Seq<char>>, key: Seq<char>)
    ensures
        among(keys, keys.len(), key) <==> keys.contains(key),
{
    if keys.contains(key) {
        let i = choose|i: int| 0 <= i < keys.len() && keys[i] == key;
        assert(keys[i] == key);
    }
}

/// Taking a note out of the index takes it out of its tags and leaves the tags of all other
/// notes alone: the notes under a tag are still just those that have it.
pub proof fn law_tags_after_removal(v: IndexView, p: Seq<char>)
    requires
        tags_agree(v.notes, v.tags),
    ensures
        tags_agree(v.notes.remove(p), v.tags_without(p)),
        forall|t: Seq<char>| !#[trigger] listed(v.tags_without(p), t, p),
{
    let after = v.tags_without(p);
    let notes = v.notes.remove(p);
    if v.notes.contains_key(p) {
        let ts = text::strings(v.notes[p].tags@);
        lemma_unlisted_under(v.tags, ts, ts.len(), p);
        assert forall|t: Seq<char>, q: Seq<char>| #[trigger]
            listed(after, t, q) <==> notes.contains_key(q) && text::strings(
                notes[q].tags@,
            ).contains(t) by {
            lemma_among_all(ts, t);
            assert(listed(v.tags, t, q) <==> v.notes.contains_key(q) && text::strings(
                v.notes[q].tags@,
            ).contains(t));
        }
    } else {
        assert(notes =~= v.notes);
    }
}

/// Adding a note under a new path keeps the notes under a tag those that have it.
pub proof fn law_tags_after_adding(
    notes: Map<Seq<char>, NoteMetadata>,
    tags: Map<Seq<char>, Seq<Seq<char>>>,
    p: Seq<char>,
    after: Map<Seq<char>, NoteMetadata>,
    file: NoteFile,
)
    requires
        tags_agree(notes, tags),
        !notes.contains_key(p),
        index::has_note(after, notes, p, file),
    ensures
        tags_agree(after, index::tags_with(tags, file.content@, p)),
{
    let ts = index::all_tags(file.content@);
    lemma_listed_under(tags, ts, ts.len(), p);
    assert forall|t: Seq<char>, q: Seq<char>| #[trigger]
        listed(index::tags_with(tags, file.content@, p), t, q) <==> after.contains_key(q)
            && text::strings(after[q].tags@).contains(t) by {
        lemma_among_all(ts, t);
        assert(listed(tags, t, q) <==> notes.contains_key(q) && text::strings(
            notes[q].tags@,
        ).contains(t));
        assert(after.contains_key(q) <==> notes.contains_key(q) || q == p);
        if q != p && notes.contains_key(q) {
            assert(after[q] == notes[q]);
        }
    }
}

/// Re-indexing a note keeps the notes under a tag those that have it, whether the note was
/// known before or not.
pub proof fn law_tags_after_reindexing(
    v: IndexView,
    p: Seq<char>,
    after: Map<Seq<char>, NoteMetadata>,
    file: NoteFile,
)
    requires
        tags_agree(v.notes, v.tags),
        index::has_note(after, v.notes, p, file),
    ensures
        tags_agree(after, index::tags_with(v.tags_without(p), file.content@, p)),
{
    law_tags_after_removal(v, p);
    assert(after =~= v.notes.remove(p).insert(p, after[p]));
    law_tags_after_adding(v.notes.remove(p), v.tags_without(p), p, after, file);
}

/// Renaming a note to a path that no other note has keeps the notes under a tag those that have
/// it.
pub proof fn law_tags_after_renaming(
    v: IndexView,
    from: Seq<char>,
    to: Seq<char>,
    after: Map<Seq<char>, NoteMetadata>,
    file: NoteFile,
)
    requires
        tags_agree(v.notes, v.tags),
        from == to || !v.notes.contains_key(to),
        index::has_note(after, v.notes.remove(from), to, file),
    ensures
        tags_agree(after, index::tags_with(v.tags_without(from), file.content@, to)),
{
    law_tags_after_removal(v, from);
    law_tags_after_adding(v.notes.remove(from), v.tags_without(from), to, after, file);
}

/// Whether no two files that are indexed have the same path.
pub open spec fn distinct_paths(files: Seq<ScannedFile>, patterns: Seq<Seq<char>>) -> bool {
    forall|i: int, j: int|
        0 <= i < j < files.len() && index::is_indexed(files[i], patterns) && index::is_indexed(
            files[j],
            patterns,
        ) ==> #[trigger] index::scanned_path(files[i]) != #[trigger] index::scanned_path(files[j])
}

proof fn lemma_indexed_at(
    files: Seq<ScannedFile>,
    patterns: Seq<Seq<char>>,
    k: nat,
    p: Seq<char>,
)
    requires
        k <= files.len(),
    ensures
        match index::indexed_at(files, patterns, k, p) {
            Some(file) => exists|i: int|
                0 <= i < k && index::is_indexed(files[i], patterns) && #[trigger] index::scanned_path(
                    files[i],
                ) == p && files[i].note == Some(file),
            None => forall|i: int|
                0 <= i < k && index::is_indexed(files[i], patterns) ==> #[trigger] index::scanned_path(
                    files[i],
                ) != p,
        },
    decreases k,
{
    if k > 0 {
        let f = files[k - 1];
        if index::is_indexed(f, patterns) && index::scanned_path(f) == p {
            assert(f.note is Some);
        } else {
            lemma_indexed_at(files, patterns, (k - 1) as nat, p);
            if let Some(file) = index::indexed_at(files, patterns, (k - 1) as nat, p) {
                let i = choose|i: int|
                    0 <= i < k - 1 && index::is_indexed(files[i], patterns)
                        && #[trigger] index::scanned_path(files[i]) == p && files[i].note == Some(
                        file,
                    );
                assert(0 <= i < k && index::scanned_path(files[i]) == p);
            }
        }
    }
}

proof fn lemma_scanned_tags(files: Seq<ScannedFile>, patterns: Seq<Seq<char>>, k: nat)
    requires
        k <= files.len(),
    ensures
        ({
            let tags = index::scanned_tags(files, patterns, k);
            &&& lists_are_tidy(tags)
            &&& forall|t: Seq<char>, p: Seq<char>| #[trigger]
                listed(tags, t, p) <==> exists|i: int|
                    0 <= i < k && index::is_indexed(files[i], patterns)
                        && #[trigger] index::scanned_path(files[i]) == p && index::all_tags(
                        files[i].note->Some_0.content@,
                    ).contains(t)
        }),
    decreases k,
{
    let tags = index::scanned_tags(files, patterns, k);
    if k > 0 {
        let before = index::scanned_tags(files, patterns, (k - 1) as nat);
        let f = files[k - 1];
        lemma_scanned_tags(files, patterns, (k - 1) as nat);
        let ts = index::all_tags(f.note->Some_0.content@);
        lemma_listed_under(before, ts, ts.len(), index::scanned_path(f));
        assert forall|t: Seq<char>, p: Seq<char>| #[trigger]
            listed(tags, t, p) <==> exists|i: int|
                0 <= i < k && index::is_indexed(files[i], patterns)
                    && #[trigger] index::scanned_path(files[i]) == p && index::all_tags(
                    files[i].note->Some_0.content@,
                ).contains(t) by {
            lemma_among_all(ts, t);
            let earlier = exists|i: int|
                0 <= i < k - 1 && index::is_indexed(files[i], patterns)
                    && #[trigger] index::scanned_path(files[i]) == p && index::all_tags(
                    files[i].note->Some_0.content@,
                ).contains(t);
            assert(listed(before, t, p) <==> earlier);
            if earlier {
                let i = choose|i: int|
                    0 <= i < k - 1 && index::is_indexed(files[i], patterns)
                        && #[trigger] index::scanned_path(files[i]) == p && index::all_tags(
                        files[i].note->Some_0.content@,
                    ).contains(t);
                assert(0 <= i < k && index::scanned_path(files[i]) == p);
            }
            if index::is_indexed(f, patterns) && index::scanned_path(f) == p && ts.contains(t) {
                assert(index::scanned_path(files[k - 1]) == p);
            }
        }
    } else {
        assert forall|t: Seq<char>, p: Seq<char>| !#[trigger] listed(tags, t, p) by {}
    }
}

/// In an index that was built from files with distinct paths, the notes under a tag are just
/// those that have it.
pub proof fn law_built_tags_agree(
    notes: Map<Seq<char>, NoteMetadata>,
    files: Seq<ScannedFile>,
    patterns: Seq<Seq<char>>,
)
    requires
        index::holds_scanned(notes, files, patterns, files.len()),
        distinct_paths(files, patterns),
    ensures
        tags_agree(notes, index::scanned_tags(files, patterns, files.len())),
{
    let tags = index::scanned_tags(files, patterns, files.len());
    lemma_scanned_tags(files, patterns, files.len());
    assert forall|t: Seq<char>, p: Seq<char>| #[trigger]
        listed(tags, t, p) <==> notes.contains_key(p) && text::strings(notes[p].tags@).contains(
            t,
        ) by {
        lemma_indexed_at(files, patterns, files.len(), p);
        match index::indexed_at(files, patterns, files.len(), p) {
            Some(file) => {
                assert(notes.contains_key(p));
                let i = choose|i: int|
                    0 <= i < files.len() && index::is_indexed(files[i], patterns)
                        && #[trigger] index::scanned_path(files[i]) == p && files[i].note == Some(
                        file,
                    );
                if listed(tags, t, p) {
                    let j = choose|j: int|
                        0 <= j < files.len() && index::is_indexed(files[j], patterns)
                            && #[trigger] index::scanned_path(files[j]) == p && index::all_tags(
                            files[j].note->Some_0.content@,
                        ).contains(t);
                    assert(i == j);
                }
                if text::strings(notes[p].tags@).contains(t) {
                    assert(index::scanned_path(files[i]) == p && index::all_tags(
                        files[i].note->Some_0.content@,
                    ).contains(t));
                }
            },
            None => {
                assert(!notes.contains_key(p));
            },
        }
    }
}

// ---------------------------------------------------------------------------
// Exclusion
// ---------------------------------------------------------------------------

/// An index that was built holds no note that an exclusion pattern matches.
pub proof fn law_excluded_notes_are_not_indexed(
    notes: Map<Seq<char>, NoteMetadata>,
    files: Seq<ScannedFile>,
    patterns: Seq<Seq<char>>,
    p: Seq<char>,
)
    requires
        index::holds_scanned(notes, files, patterns, files.len()),
        exclude::any_matches(patterns, p),
    ensures
        !notes.contains_key(p),
        forall|t: Seq<char>|
            !#[trigger] listed(index::scanned_tags(files, patterns, files.len()), t, p),
{
    lemma_indexed_at(files, patterns, files.len(), p);
    lemma_scanned_tags(files, patterns, files.len());
    assert(notes.contains_key(p) || !notes.contains_key(p));
}

proof fn lemma_scanned_excluded(files: Seq<ScannedFile>, patterns: Seq<Seq<char>>, k: nat)
    requires
        k <= files.len(),
    ensures
        index::scanned_excluded(files, patterns, k).no_duplicates(),
        forall|i: int|
            0 <= i < index::scanned_excluded(files, patterns, k).len() ==> exclude::any_matches(
                patterns,
                #[trigger] index::scanned_excluded(files, patterns, k)[i],
            ),
    decreases k,
{
    if k > 0 {
        lemma_scanned_excluded(files, patterns, (k - 1) as nat);
        let before = index::scanned_excluded(files, patterns, (k - 1) as nat);
        lemma_with_member(before, index::scanned_path(files[k - 1]));
    }
}

/// The notes that an index records as kept out are excluded by the patterns, and each is
/// recorded once.
pub proof fn law_notes_kept_out_are_excluded(files: Seq<ScannedFile>, patterns: Seq<Seq<char>>)
    ensures
        index::scanned_excluded(files, patterns, files.len()).no_duplicates(),
        forall|i: int|
            0 <= i < index::scanned_excluded(files, patterns, files.len()).len()
                ==> exclude::any_matches(
                patterns,
                #[trigger] index::scanned_excluded(files, patterns, files.len())[i],
            ),
{
    lemma_scanned_excluded(files, patterns, files.len());
}

// ---------------------------------------------------------------------------
// Links
// ---------------------------------------------------------------------------

/// Whether a link leads to a note.
pub open spec fn leads_to(resolver: ResolverView, link: LinkView, target: Seq<char>) -> bool {
    link.target.len() > 0 && resolver.resolved(link.target) == Some(target)
}

/// Whether one of the first `k` links leads to a note.
pub open spec fn links_to(
    links: Seq<LinkView>,
    k: nat,
    resolver: ResolverView,
    target: Seq<char>,
) -> bool {
    exists|i: int| 0 <= i < k && leads_to(resolver, #[trigger] links[i], target)
}

proof fn lemma_linked_from(
    lists: Map<Seq<char>, Seq<Seq<char>>>,
    links: Seq<LinkView>,
    k: nat,
    resolver: ResolverView,
    source: Seq<char>,
)
    requires
        k <= links.len(),
    ensures
        ({
            let after = index::linked_from(lists, links, k, resolver, source);
            &&& lists_are_tidy(lists) ==> lists_are_tidy(after)
            &&& forall|t: Seq<char>, q: Seq<char>| #[trigger]
                listed(after, t, q) <==> listed(lists, t, q) || (q == source && links_to(
                    links,
                    k,
                    resolver,
                    t,
                ))
        }),
    decreases k,
{
    if k > 0 {
        let less = index::linked_from(lists, links, (k - 1) as nat, resolver, source);
        let after = index::linked_from(lists, links, k, resolver, source);
        lemma_linked_from(lists, links, (k - 1) as nat, resolver, source);
        if let Some(p) = resolver.resolved(links[k - 1].target) {
            lemma_with_listed(less, p, source);
        }
        assert forall|t: Seq<char>, q: Seq<char>| #[trigger]
            listed(after, t, q) <==> listed(lists, t, q) || (q == source && links_to(
                links,
                k,
                resolver,
                t,
            )) by {
            assert(listed(less, t, q) <==> listed(lists, t, q) || (q == source && links_to(
                links,
                (k - 1) as nat,
                resolver,
                t,
            )));
            if links_to(links, (k - 1) as nat, resolver, t) {
                let i = choose|i: int|
                    0 <= i < k - 1 && leads_to(resolver, #[trigger] links[i], t);
                assert(0 <= i < k && leads_to(resolver, links[i], t));
            }
            if leads_to(resolver, links[k - 1], t) {
                assert(links_to(links, k, resolver, t));
            }
            if links_to(links, k, resolver, t) {
                let i = choose|i: int| 0 <= i < k && leads_to(resolver, #[trigger] links[i], t);
                if i < k - 1 {
                    assert(0 <= i < k - 1 && leads_to(resolver, links[i], t));
                }
            }
        }
    }
}

/// Whether a note links to another one.
pub open spec fn note_links_to(
    note: NoteMetadata,
    resolver: ResolverView,
    target: Seq<char>,
) -> bool {
    let links = parser::link_views(note.links@);
    links_to(links, links.len(), resolver, target)
}

proof fn lemma_backlinks_of(
    notes: Map<Seq<char>, NoteMetadata>,
    order: Seq<Seq<char>>,
    k: nat,
    resolver: ResolverView,
)
    requires
        k <= order.len(),
    ensures
        ({
            let all = index::backlinks_of(notes, order, k, resolver);
            &&& lists_are_tidy(all)
            &&& forall|t: Seq<char>, q: Seq<char>| #[trigger]
                listed(all, t, q) <==> among(order, k, q) && note_links_to(notes[q], resolver, t)
        }),
    decreases k,
{
    let all = index::backlinks_of(notes, order, k, resolver);
    if k > 0 {
        let before = index::backlinks_of(notes, order, (k - 1) as nat, resolver);
        let source = order[k - 1];
        let links = parser::link_views(notes[source].links@);
        lemma_backlinks_of(notes, order, (k - 1) as nat, resolver);
        lemma_linked_from(before, links, links.len(), resolver, source);
        assert forall|t: Seq<char>, q: Seq<char>| #[trigger]
            listed(all, t, q) <==> among(order, k, q) && note_links_to(notes[q], resolver, t) by {
            lemma_among(order, k, q);
            assert(listed(before, t, q) <==> among(order, (k - 1) as nat, q) && note_links_to(
                notes[q],
                resolver,
                t,
            ));
        }
    } else {
        assert forall|t: Seq<char>, q: Seq<char>| !#[trigger] listed(all, t, q) by {}
    }
}

/// Whether the paths that are walked are those of the notes, each once.
pub open spec fn walks_all(v: IndexView) -> bool {
    &&& v.order.no_duplicates()
    &&& forall|p: Seq<char>| #[trigger] v.notes.contains_key(p) <==> v.order.contains(p)
}

/// In an index that is up to date a note is among the backlinks of another one just where one
/// of its links leads there, and it is there once.
pub proof fn law_backlinks_are_the_links_turned_round(
    v: IndexView,
    source: Seq<char>,
    target: Seq<char>,
)
    requires
        walks_all(v),
        v.up_to_date(),
    ensures
        listed(v.backlinks, target, source) <==> v.notes.contains_key(source) && note_links_to(
            v.notes[source],
            v.links,
            target,
        ),
        lists_are_tidy(v.backlinks),
{
    lemma_backlinks_of(v.notes, v.order, v.order.len(), v.links);
    lemma_among_all(v.order, source);
    assert(listed(v.backlinks, target, source) <==> among(v.order, v.order.len(), source)
        && note_links_to(v.notes[source], v.links, target));
}

/// In an index that is up to date a note is an orphan just where no link of any note leads to
/// it and none of its own links names a note.
pub proof fn law_orphans(v: IndexView, p: Seq<char>)
    requires
        walks_all(v),
        v.up_to_date(),
        v.notes.contains_key(p),
    ensures
        index::is_orphan(v, p) <==> !index::has_outgoing(v.notes[p]) && forall|q: Seq<char>|
            v.notes.contains_key(q) ==> !#[trigger] note_links_to(v.notes[q], v.links, p),
{
    let list = wikilink::paths_at(v.backlinks, p);
    if list.len() == 0 {
        assert forall|q: Seq<char>| v.notes.contains_key(q) implies !#[trigger] note_links_to(
            v.notes[q],
            v.links,
            p,
        ) by {
            law_backlinks_are_the_links_turned_round(v, q, p);
            assert(!listed(v.backlinks, p, q));
        }
    } else {
        let q = list[0];
        assert(list.contains(q));
        law_backlinks_are_the_links_turned_round(v, q, p);
        assert(listed(v.backlinks, p, q));
        assert(note_links_to(v.notes[q], v.links, p));
    }
}

proof fn lemma_orphans(v: IndexView, k: nat, m: NoteMetadata)
    requires
        k <= v.order.len(),
    ensures
        index::orphans(v, k).contains(m) <==> exists|i: int|
            0 <= i < k && v.notes[#[trigger] v.order[i]] == m && index::is_orphan(v, v.order[i]),
    decreases k,
{
    if k > 0 {
        let before = index::orphans(v, (k - 1) as nat);
        let all = index::orphans(v, k);
        lemma_orphans(v, (k - 1) as nat, m);
        if before.contains(m) {
            let i = choose|i: int|
                0 <= i < k - 1 && v.notes[#[trigger] v.order[i]] == m && index::is_orphan(
                    v,
                    v.order[i],
                );
            assert(0 <= i < k && v.notes[v.order[i]] == m);
            let j = choose|j: int| 0 <= j < before.len() && before[j] == m;
            assert(all[j] == m);
        }
        if index::is_orphan(v, v.order[k - 1]) {
            assert(all[all.len() - 1] == v.notes[v.order[k - 1]]);
        }
        if all.contains(m) {
            let j = choose|j: int| 0 <= j < all.len() && all[j] == m;
            if j < before.len() {
                assert(before[j] == m);
            } else {
                assert(v.notes[v.order[k - 1]] == m);
            }
        }
    }
}

/// The orphans that are reported are just the notes that are orphans.
pub proof fn law_reported_orphans(v: IndexView, m: NoteMetadata)
    requires
        walks_all(v),
    ensures
        index::orphans(v, v.order.len()).contains(m) <==> exists|p: Seq<char>|
            #[trigger] v.notes.contains_key(p) && v.notes[p] == m && index::is_orphan(v, p),
{
    lemma_orphans(v, v.order.len(), m);
    if index::orphans(v, v.order.len()).contains(m) {
        let i = choose|i: int|
            0 <= i < v.order.len() && v.notes[#[trigger] v.order[i]] == m && index::is_orphan(
                v,
                v.order[i],
            );
        assert(v.order.contains(v.order[i]));
        assert(v.notes.contains_key(v.order[i]));
    }
    if exists|p: Seq<char>| #[trigger]
        v.notes.contains_key(p) && v.notes[p] == m && index::is_orphan(v, p) {
        let p = choose|p: Seq<char>| #[trigger]
            v.notes.contains_key(p) && v.notes[p] == m && index::is_orphan(v, p);
        assert(v.order.contains(p));
        let i = choose|i: int| 0 <= i < v.order.len() && v.order[i] == p;
        assert(v.notes[v.order[i]] == m);
    }
}

proof fn lemma_broken_of(
    source: Seq<char>,
    links: Seq<LinkView>,
    k: nat,
    resolver: ResolverView,
    p: Seq<char>,
    link: LinkView,
)
    requires
        k <= links.len(),
    ensures
        index::broken_of(source, links, k, resolver).contains((p, link)) <==> p == source
            && index::is_broken(resolver, link) && exists|i: int|
            0 <= i < k && #[trigger] links[i] == link,
    decreases k,
{
    let all = index::broken_of(source, links, k, resolver);
    if k > 0 {
        let before = index::broken_of(source, links, (k - 1) as nat, resolver);
        lemma_broken_of(source, links, (k - 1) as nat, resolver, p, link);
        if before.contains((p, link)) {
            let j = choose|j: int| 0 <= j < before.len() && before[j] == (p, link);
            assert(all[j] == (p, link));
            let i = choose|i: int| 0 <= i < k - 1 && #[trigger] links[i] == link;
            assert(0 <= i < k && links[i] == link);
        }
        if index::is_broken(resolver, links[k - 1]) {
            assert(all[all.len() - 1] == (source, links[k - 1]));
        }
        if all.contains((p, link)) {
            let j = choose|j: int| 0 <= j < all.len() && all[j] == (p, link);
            if j < before.len() {
                assert(before[j] == (p, link));
            } else {
                assert(links[k - 1] == link);
            }
        }
        if p == source && index::is_broken(resolver, link) && exists|i: int|
            0 <= i < k && #[trigger] links[i] == link {
            let i = choose|i: int| 0 <= i < k && #[trigger] links[i] == link;
            if i < k - 1 {
                assert(0 <= i < k - 1 && links[i] == link);
            }
        }
    }
}

proof fn lemma_broken_among(
    notes: Map<Seq<char>, NoteMetadata>,
    order: Seq<Seq<char>>,
    k: nat,
    resolver: ResolverView,
    p: Seq<char>,
    link: LinkView,
)
    requires
        k <= order.len(),
    ensures
        index::broken_among(notes, order, k, resolver).contains((p, link)) <==> among(order, k, p)
            && parser::link_views(notes[p].links@).contains(link) && index::is_broken(
            resolver,
            link,
        ),
    decreases k,
{
    let all = index::broken_among(notes, order, k, resolver);
    if k > 0 {
        let before = index::broken_among(notes, order, (k - 1) as nat, resolver);
        let source = order[k - 1];
        let links = parser::link_views(notes[source].links@);
        let more = index::broken_of(source, links, links.len(), resolver);
        lemma_broken_among(notes, order, (k - 1) as nat, resolver, p, link);
        lemma_broken_of(source, links, links.len(), resolver, p, link);
        lemma_among(order, k, p);
        if before.contains((p, link)) {
            let j = choose|j: int| 0 <= j < before.len() && before[j] == (p, link);
            assert(all[j] == (p, link));
        }
        if more.contains((p, link)) {
            let j = choose|j: int| 0 <= j < more.len() && more[j] == (p, link);
            assert(all[before.len() + j] == (p, link));
            let i = choose|i: int| 0 <= i < links.len() && #[trigger] links[i] == link;
            assert(links.contains(links[i]));
        }
        if all.contains((p, link)) {
            let j = choose|j: int| 0 <= j < all.len() && all[j] == (p, link);
            if j < before.len() {
                assert(before[j] == (p, link));
            } else {
                assert(more[j - before.len()] == (p, link));
            }
        }
        if p == source && links.contains(link) {
            let i = choose|i: int| 0 <= i < links.len() && links[i] == link;
            assert(links[i] == link);
        }
    }
}

/// The broken links that are reported are just the links of notes that name a note and resolve
/// to none.
pub proof fn law_broken_links(v: IndexView, p: Seq<char>, link: LinkView)
    requires
        walks_all(v),
    ensures
        index::broken_among(v.notes, v.order, v.order.len(), v.links).contains((p, link))
            <==> v.notes.contains_key(p) && parser::link_views(v.notes[p].links@).contains(link)
            && link.target.len() > 0 && v.links.resolved(link.target) is None,
{
    lemma_broken_among(v.notes, v.order, v.order.len(), v.links, p, link);
    lemma_among_all(v.order, p);
}

/// Whether a resolver has a path among those with its name.
pub open spec fn knows(resolver: ResolverView, p: Seq<char>) -> bool {
    wikilink::paths_at(resolver.by_stem, wikilink::name_key(p)).contains(p)
}

/// Whether a resolver knows just the paths of the notes, by name and by path.
pub open spec fn links_agree(notes: Map<Seq<char>, NoteMetadata>, resolver: ResolverView) -> bool {
    &&& forall|p: Seq<char>| #[trigger] knows(resolver, p) <==> notes.contains_key(p)
    &&& forall|key: Seq<char>| #[trigger]
        resolver.by_path.contains_key(key) ==> notes.contains_key(resolver.by_path[key])
}

proof fn lemma_knows(resolver: ResolverView, p: Seq<char>, q: Seq<char>)
    requires
        path::is_tidy(p),
    ensures
        knows(resolver.with_path(p), q) <==> knows(resolver, q) || q == p,
        knows(resolver.without_path(p), q) <==> knows(resolver, q) && q != p,
{
    let key = wikilink::name_key(p);
    let list = wikilink::paths_at(resolver.by_stem, key);
    lemma_push_contains(list, p, q);
    lemma_others(list, p);
    assert(wikilink::others(list, p).contains(q) <==> list.contains(q) && q != p);
    if wikilink::name_key(q) == key {
        assert(wikilink::paths_at(resolver.without_path(p).by_stem, key) =~= wikilink::others(
            list,
            p,
        ));
    }
}

/// Links are resolved among the notes of the index and no others: this holds after a note was
/// removed, re-indexed or renamed if it held before.
pub proof fn law_resolver_knows_the_notes(
    notes: Map<Seq<char>, NoteMetadata>,
    resolver: ResolverView,
    from: Seq<char>,
    to: Seq<char>,
    m: NoteMetadata,
)
    requires
        links_agree(notes, resolver),
        resolver.consistent(),
        path::is_tidy(from),
        path::is_tidy(to),
    ensures
        links_agree(notes.remove(from), resolver.without_path(from)),
        links_agree(notes.insert(from, m), resolver.without_path(from).with_path(from)),
        links_agree(notes.remove(from).insert(to, m), resolver.without_path(from).with_path(to)),
{
    let less = resolver.without_path(from);
    assert forall|key: Seq<char>| #[trigger] less.by_path.contains_key(key) implies notes.remove(
        from,
    ).contains_key(less.by_path[key]) by {
        assert(resolver.by_path.contains_key(key));
        assert(wikilink::lookup_key(resolver.by_path[key]) == key);
    }
    assert forall|q: Seq<char>| #[trigger]
        knows(resolver.without_path(from), q) <==> notes.remove(from).contains_key(q) by {
        lemma_knows(resolver, from, q);
        assert(knows(resolver, q) <==> notes.contains_key(q));
    }
    assert forall|q: Seq<char>| #[trigger]
        knows(resolver.without_path(from).with_path(from), q) <==> notes.insert(
            from,
            m,
        ).contains_key(q) by {
        lemma_knows(resolver.without_path(from), from, q);
        lemma_knows(resolver, from, q);
        assert(knows(resolver, q) <==> notes.contains_key(q));
    }
    assert forall|q: Seq<char>| #[trigger]
        knows(resolver.without_path(from).with_path(to), q) <==> notes.remove(from).insert(
            to,
            m,
        ).contains_key(q) by {
        lemma_knows(resolver.without_path(from), to, q);
        lemma_knows(resolver, from, q);
        assert(knows(resolver, q) <==> notes.contains_key(q));
    }
}

proof fn lemma_knows_all(paths: Seq<Seq<char>>, q: Seq<char>)
    requires
        forall|i: int| 0 <= i < paths.len() ==> path::is_tidy(#[trigger] paths[i]),
    ensures
        knows(ResolverView::of_paths(paths), q) <==> paths.contains(q),
        ResolverView::of_paths(paths).by_path.contains_key(q) ==> paths.contains(
            ResolverView::of_paths(paths).by_path[q],
        ),
    decreases paths.len(),
{
    if paths.len() > 0 {
        let d = paths.drop_last();
        assert forall|i: int| 0 <= i < d.len() implies path::is_tidy(#[trigger] d[i]) by {
            assert(d[i] == paths[i]);
        }
        lemma_knows_all(d, q);
        lemma_knows(ResolverView::of_paths(d), paths.last(), q);
        lemma_push_contains(d, paths.last(), q);
        assert(paths =~= d.push(paths.last()));
        lemma_push_contains(d, paths.last(), paths.last());
        lemma_push_contains(d, paths.last(), ResolverView::of_paths(d).by_path[q]);
    }
}

/// In an index that was built links are resolved among its notes and no others.
pub proof fn law_built_resolver_knows_the_notes(v: IndexView)
    requires
        walks_all(v),
        paths_agree(v.notes),
        v.links == ResolverView::of_paths(v.order),
    ensures
        links_agree(v.notes, v.links),
        v.links.consistent(),
{
    assert forall|i: int| 0 <= i < v.order.len() implies path::is_tidy(#[trigger] v.order[i]) by {
        assert(v.order.contains(v.order[i]));
        assert(v.notes.contains_key(v.order[i]));
    }
    wikilink::law_built_resolver_is_consistent(v.order);
    assert forall|p: Seq<char>| #[trigger] knows(v.links, p) <==> v.notes.contains_key(p) by {
        lemma_knows_all(v.order, p);
    }
    assert forall|key: Seq<char>| #[trigger]
        v.links.by_path.contains_key(key) implies v.notes.contains_key(v.links.by_path[key]) by {
        lemma_knows_all(v.order, key);
    }
}

/// After a note was removed nothing leads to it, and it is among the backlinks of no note.
pub proof fn law_removed_note_has_no_links(v: IndexView, after: IndexView, p: Seq<char>)
    requires
        path::is_tidy(p),
        v.links.consistent(),
        after.notes == v.notes.remove(p),
        after.links == v.links.without_path(p),
        walks_all(after),
        after.up_to_date(),
    ensures
        forall|target: Seq<char>| after.links.resolved(target) != Some(p),
        wikilink::paths_at(after.backlinks, p).len() == 0,
        forall|t: Seq<char>| !#[trigger] listed(after.backlinks, t, p),
{
    assert forall|target: Seq<char>| after.links.resolved(target) != Some(p) by {
        wikilink::law_removed_path_is_no_candidate(v.links, p, target);
        if after.links.resolved(target) == Some(p) {
            assert(after.links.candidates(target).contains(after.links.candidates(target)[0]));
        }
    }
    let list = wikilink::paths_at(after.backlinks, p);
    if list.len() > 0 {
        let q = list[0];
        assert(list.contains(q));
        law_backlinks_are_the_links_turned_round(after, q, p);
        assert(listed(after.backlinks, p, q));
        let links = parser::link_views(after.notes[q].links@);
        let i = choose|i: int|
            0 <= i < links.len() && leads_to(after.links, #[trigger] links[i], p);
        assert(after.links.resolved(links[i].target) == Some(p));
    }
    assert forall|t: Seq<char>| !#[trigger] listed(after.backlinks, t, p) by {
        law_backlinks_are_the_links_turned_round(after, p, t);
    }
}

// ---------------------------------------------------------------------------
// Queries
// ---------------------------------------------------------------------------

/// Whether every note is known by its own path, which is tidy.
pub open spec fn paths_agree(notes: Map<Seq<char>, NoteMetadata>) -> bool {
    forall|p: Seq<char>| #[trigger]
        notes.contains_key(p) ==> notes[p].path@ == p && path::is_tidy(p)
}

proof fn lemma_notes_among(
    notes: Map<Seq<char>, NoteMetadata>,
    paths: Seq<Seq<char>>,
    k: nat,
    p: Seq<char>,
)
    requires
        k <= paths.len(),
        paths_agree(notes),
        notes.contains_key(p),
    ensures
        index::notes_among(notes, paths, k).contains(notes[p]) <==> among(paths, k, p),
    decreases k,
{
    let all = index::notes_among(notes, paths, k);
    if k > 0 {
        let before = index::notes_among(notes, paths, (k - 1) as nat);
        lemma_notes_among(notes, paths, (k - 1) as nat, p);
        lemma_among(paths, k, p);
        if before.contains(notes[p]) {
            let j = choose|j: int| 0 <= j < before.len() && before[j] == notes[p];
            assert(all[j] == notes[p]);
        }
        if paths[k - 1] == p {
            assert(all[all.len() - 1] == notes[p]);
        }
        if all.contains(notes[p]) {
            let j = choose|j: int| 0 <= j < all.len() && all[j] == notes[p];
            if j < before.len() {
                assert(before[j] == notes[p]);
            } else {
                assert(notes.contains_key(paths[k - 1]));
                assert(notes[paths[k - 1]].path@ == paths[k - 1]);
            }
        }
    }
}

proof fn lemma_notes_among_once(
    notes: Map<Seq<char>, NoteMetadata>,
    paths: Seq<Seq<char>>,
    k: nat,
)
    requires
        k <= paths.len(),
        paths.no_duplicates(),
        paths_agree(notes),
    ensures
        index::notes_among(notes, paths, k).no_duplicates(),
        forall|j: int|
            0 <= j < index::notes_among(notes, paths, k).len() ==> among(
                paths,
                k,
                (#[trigger] index::notes_among(notes, paths, k)[j]).path@,
            ),
    decreases k,
{
    let all = index::notes_among(notes, paths, k);
    if k > 0 {
        let before = index::notes_among(notes, paths, (k - 1) as nat);
        lemma_notes_among_once(notes, paths, (k - 1) as nat);
        if notes.contains_key(paths[k - 1]) {
            assert(notes[paths[k - 1]].path@ == paths[k - 1]);
        }
        assert forall|j: int| 0 <= j < all.len() implies among(
            paths,
            k,
            (#[trigger] all[j]).path@,
        ) by {
            lemma_among(paths, k, all[j].path@);
            if j < before.len() {
                assert(before[j] == all[j]);
            }
        }
        assert forall|i: int, j: int| 0 <= i < j < all.len() implies all[i] != all[j] by {
            if j < before.len() {
                assert(before[i] == all[i] && before[j] == all[j]);
            } else {
                assert(before[i] == all[i]);
                let h = choose|h: int|
                    0 <= h < k - 1 && #[trigger] paths[h] == before[i].path@;
                assert(paths[h] != paths[k - 1]);
            }
        }
    }
}

/// The notes that are found by a tag are just those that have it, each once.
pub proof fn law_notes_with_tag(v: IndexView, tag: Seq<char>, p: Seq<char>)
    requires
        tags_agree(v.notes, v.tags),
        paths_agree(v.notes),
        v.notes.contains_key(p),
    ensures
        ({
            let paths = wikilink::paths_at(v.tags, tag);
            let found = index::notes_among(v.notes, paths, paths.len());
            &&& found.contains(v.notes[p]) <==> text::strings(v.notes[p].tags@).contains(tag)
            &&& found.no_duplicates()
        }),
{
    let paths = wikilink::paths_at(v.tags, tag);
    lemma_notes_among(v.notes, paths, paths.len(), p);
    lemma_among_all(paths, p);
    assert(listed(v.tags, tag, p) <==> paths.contains(p));
    assert(paths.no_duplicates());
    lemma_notes_among_once(v.notes, paths, paths.len());
}

proof fn lemma_joined_members(list: Seq<Seq<char>>, more: Seq<Seq<char>>, k: nat, p: Seq<char>)
    requires
        k <= more.len(),
    ensures
        index::joined_members(list, more, k).contains(p) <==> list.contains(p) || among(more, k, p),
        list.no_duplicates() ==> index::joined_members(list, more, k).no_duplicates(),
    decreases k,
{
    if k > 0 {
        let before = index::joined_members(list, more, (k - 1) as nat);
        lemma_joined_members(list, more, (k - 1) as nat, p);
        lemma_with_member(before, more[k - 1]);
        lemma_among(more, k, p);
        assert(index::with_member(before, more[k - 1]).contains(p) <==> before.contains(p) || p
            == more[k - 1]);
    }
}

proof fn lemma_paths_under_tag(
    tags: Map<Seq<char>, Seq<Seq<char>>>,
    order: Seq<Seq<char>>,
    k: nat,
    prefix: Seq<char>,
    p: Seq<char>,
)
    requires
        k <= order.len(),
    ensures
        index::paths_under_tag(tags, order, k, prefix).no_duplicates(),
        index::paths_under_tag(tags, order, k, prefix).contains(p) <==> exists|i: int|
            0 <= i < k && index::under_tag(#[trigger] order[i], prefix) && tags[order[i]].contains(
                p,
            ),
    decreases k,
{
    if k > 0 {
        let before = index::paths_under_tag(tags, order, (k - 1) as nat, prefix);
        let list = tags[order[k - 1]];
        lemma_paths_under_tag(tags, order, (k - 1) as nat, prefix, p);
        lemma_joined_members(before, list, list.len(), p);
        lemma_among_all(list, p);
        if before.contains(p) {
            let i = choose|i: int|
                0 <= i < k - 1 && index::under_tag(#[trigger] order[i], prefix)
                    && tags[order[i]].contains(p);
            assert(0 <= i < k && index::under_tag(order[i], prefix));
        }
        if index::under_tag(order[k - 1], prefix) && list.contains(p) {
            assert(0 <= k - 1 < k && index::under_tag(order[k - 1], prefix));
        }
    }
}

/// The notes that are found by the prefix of a tag are just those that have the tag itself or
/// one nested below it, each once.
pub proof fn law_notes_with_tag_prefix(v: IndexView, prefix: Seq<char>, p: Seq<char>)
    requires
        tags_agree(v.notes, v.tags),
        paths_agree(v.notes),
        forall|t: Seq<char>| #[trigger] v.tags.contains_key(t) <==> v.tag_order.contains(t),
        v.notes.contains_key(p),
    ensures
        ({
            let paths = index::paths_under_tag(v.tags, v.tag_order, v.tag_order.len(), prefix);
            let found = index::notes_among(v.notes, paths, paths.len());
            &&& found.contains(v.notes[p]) <==> exists|t: Seq<char>| #[trigger]
                index::under_tag(t, prefix) && text::strings(v.notes[p].tags@).contains(t)
            &&& found.no_duplicates()
        }),
{
    let paths = index::paths_under_tag(v.tags, v.tag_order, v.tag_order.len(), prefix);
    let found = index::notes_among(v.notes, paths, paths.len());
    lemma_paths_under_tag(v.tags, v.tag_order, v.tag_order.len(), prefix, p);
    lemma_notes_among(v.notes, paths, paths.len(), p);
    lemma_among_all(paths, p);
    lemma_notes_among_once(v.notes, paths, paths.len());
    if paths.contains(p) {
        let i = choose|i: int|
            0 <= i < v.tag_order.len() && index::under_tag(#[trigger] v.tag_order[i], prefix)
                && v.tags[v.tag_order[i]].contains(p);
        let t = v.tag_order[i];
        assert(v.tag_order.contains(t));
        assert(v.tags.contains_key(t));
        assert(listed(v.tags, t, p));
    }
    if exists|t: Seq<char>| #[trigger]
        index::under_tag(t, prefix) && text::strings(v.notes[p].tags@).contains(t) {
        let t = choose|t: Seq<char>| #[trigger]
            index::under_tag(t, prefix) && text::strings(v.notes[p].tags@).contains(t);
        assert(listed(v.tags, t, p));
        assert(v.tags.contains_key(t));
        assert(v.tag_order.contains(t));
        let i = choose|i: int| 0 <= i < v.tag_order.len() && v.tag_order[i] == t;
        assert(index::under_tag(v.tag_order[i], prefix) && v.tags[v.tag_order[i]].contains(p));
    }
}

proof fn lemma_answering(v: IndexView, k: nat, field: Seq<char>, query: FieldQuery, p: Seq<char>)
    requires
        k <= v.order.len(),
        walks_all(v),
        paths_agree(v.notes),
        v.notes.contains_key(p),
    ensures
        index::answering(v, k, field, query).contains(v.notes[p]) <==> among(v.order, k, p)
            && index::note_answers(v.notes[p], field, query),
    decreases k,
{
    let all = index::answering(v, k, field, query);
    if k > 0 {
        let before = index::answering(v, (k - 1) as nat, field, query);
        let q = v.order[k - 1];
        assert(v.order.contains(q));
        assert(v.notes.contains_key(q));
        lemma_answering(v, (k - 1) as nat, field, query, p);
        lemma_among(v.order, k, p);
        if before.contains(v.notes[p]) {
            let j = choose|j: int| 0 <= j < before.len() && before[j] == v.notes[p];
            assert(all[j] == v.notes[p]);
        }
        if q == p && index::note_answers(v.notes[p], field, query) {
            assert(all[all.len() - 1] == v.notes[p]);
        }
        if all.contains(v.notes[p]) {
            let j = choose|j: int| 0 <= j < all.len() && all[j] == v.notes[p];
            if j < before.len() {
                assert(before[j] == v.notes[p]);
            } else {
                assert(v.notes[q].path@ == q);
            }
        }
    }
}

/// The notes that a search in the front matter finds are just those that have a field that
/// answers the query.
pub proof fn law_frontmatter_search(v: IndexView, field: Seq<char>, query: FieldQuery, p: Seq<char>)
    requires
        walks_all(v),
        paths_agree(v.notes),
        v.notes.contains_key(p),
    ensures
        index::answering(v, v.order.len(), field, query).contains(v.notes[p])
            <==> index::note_answers(v.notes[p], field, query),
{
    lemma_answering(v, v.order.len(), field, query, p);
    lemma_among_all(v.order, p);
}

/// A note is found by the existence of a field wherever it is found by the value of the field.
pub proof fn law_found_by_value_is_found_by_existence(
    note: NoteMetadata,
    field: Seq<char>,
    query: FieldQuery,
)
    requires
        index::note_answers(note, field, query),
    ensures
        index::note_answers(note, field, FieldQuery::Exists),
{
}

// ---------------------------------------------------------------------------
// Search in text
// ---------------------------------------------------------------------------

/// The text around a match holds the match where it says that it does.
pub proof fn law_context_holds_the_match(
    content: Seq<char>,
    start: int,
    end: int,
    context_len: int,
)
    requires
        0 <= start <= end <= usize::MAX,
        0 <= context_len,
    ensures
        ({
            let m = index::match_in_context(content, start, end, context_len);
            &&& m.match_start <= m.match_end <= m.context.len()
            &&& m.context.subrange(m.match_start as int, m.match_end as int) == text::byte_slice(
                content,
                start,
                end,
            )
        }),
{
    let lo = if start < context_len {
        0
    } else {
        start - context_len
    };
    let hi = if end + context_len > usize::MAX {
        usize::MAX as int
    } else {
        end + context_len
    };
    text::lemma_chars_within(content, lo, start);
    text::lemma_chars_before(content, start, end);
    text::lemma_chars_before(content, end, hi);
    let m = index::match_in_context(content, start, end, context_len);
    assert(m.context.subrange(m.match_start as int, m.match_end as int) =~= text::byte_slice(
        content,
        start,
        end,
    ));
}

proof fn lemma_found_among(
    order: Seq<Seq<char>>,
    contents: Map<Seq<char>, String>,
    k: nat,
    regex: Seq<char>,
    context_len: int,
    p: Seq<char>,
    found: Seq<MatchView>,
)
    requires
        k <= order.len(),
    ensures
        index::found_among(order, contents, k, regex, context_len).contains((p, found)) <==> among(
            order,
            k,
            p,
        ) && contents.contains_key(p) && found.len() > 0 && found == index::matches_in_context(
            contents[p]@,
            index::whole_matches(crate::pattern::captures_of(regex, contents[p]@)),
            context_len,
        ),
    decreases k,
{
    let all = index::found_among(order, contents, k, regex, context_len);
    if k > 0 {
        let before = index::found_among(order, contents, (k - 1) as nat, regex, context_len);
        lemma_found_among(order, contents, (k - 1) as nat, regex, context_len, p, found);
        lemma_among(order, k, p);
        if before.contains((p, found)) {
            let j = choose|j: int| 0 <= j < before.len() && before[j] == (p, found);
            assert(all[j] == (p, found));
        }
        if all.len() > before.len() {
            assert(all[all.len() - 1].0 == order[k - 1]);
        }
        if all.contains((p, found)) {
            let j = choose|j: int| 0 <= j < all.len() && all[j] == (p, found);
            if j < before.len() {
                assert(before[j] == (p, found));
            }
        }
    }
}

/// A search finds just the indexed notes that could be read and have a match, each with all of
/// its matches.
pub proof fn law_search_results(
    v: IndexView,
    contents: Map<Seq<char>, String>,
    regex: Seq<char>,
    context_len: int,
    p: Seq<char>,
    found: Seq<MatchView>,
)
    requires
        walks_all(v),
    ensures
        index::found_among(v.order, contents, v.order.len(), regex, context_len).contains(
            (p, found),
        ) <==> v.notes.contains_key(p) && contents.contains_key(p) && found.len() > 0 && found
            == index::matches_in_context(
            contents[p]@,
            index::whole_matches(crate::pattern::captures_of(regex, contents[p]@)),
            context_len,
        ),
{
    lemma_found_among(v.order, contents, v.order.len(), regex, context_len, p, found);
    lemma_among_all(v.order, p);
}

// ---------------------------------------------------------------------------
// Counts
// ---------------------------------------------------------------------------

/// The number of links of the first `k` notes.
pub open spec fn links_in_all(
    notes: Map<Seq<char>, NoteMetadata>,
    order: Seq<Seq<char>>,
    k: nat,
) -> nat
    decreases k,
{
    if k == 0 {
        0
    } else {
        links_in_all(notes, order, (k - 1) as nat) + notes[order[k - 1]].links@.len()
    }
}

/// The size of the first `k` notes.
pub open spec fn bytes_in_all(
    notes: Map<Seq<char>, NoteMetadata>,
    order: Seq<Seq<char>>,
    k: nat,
) -> nat
    decreases k,
{
    if k == 0 {
        0
    } else {
        bytes_in_all(notes, order, (k - 1) as nat) + notes[order[k - 1]].stat.size as nat
    }
}

proof fn lemma_sums(notes: Map<Seq<char>, NoteMetadata>, order: Seq<Seq<char>>, k: nat)
    ensures
        links_in_all(notes, order, k) <= usize::MAX ==> index::link_count(notes, order, k)
            == links_in_all(notes, order, k),
        bytes_in_all(notes, order, k) <= u64::MAX ==> index::size_of_notes(notes, order, k)
            == bytes_in_all(notes, order, k),
    decreases k,
{
    if k > 0 {
        lemma_sums(notes, order, (k - 1) as nat);
    }
}

/// As long as they fit into a machine word, the counts are what they say: the number of notes,
/// of all files, of tags and of links, the size of all files, and the number of notes that are
/// kept out.
pub proof fn law_counts_are_exact(v: IndexView)
    requires
        v.notes.len() + v.other_files <= usize::MAX,
        v.tags.len() <= usize::MAX,
        v.excluded.len() <= usize::MAX,
        links_in_all(v.notes, v.order, v.order.len()) <= usize::MAX,
        bytes_in_all(v.notes, v.order, v.order.len()) + v.other_bytes <= u64::MAX,
    ensures
        v.counted().total_notes == v.notes.len(),
        v.counted().total_files == v.notes.len() + v.other_files,
        v.counted().total_tags == v.tags.len(),
        v.counted().total_links == links_in_all(v.notes, v.order, v.order.len()),
        v.counted().vault_size_bytes == bytes_in_all(v.notes, v.order, v.order.len())
            + v.other_bytes,
        v.counted().excluded_notes == v.excluded.len(),
{
    lemma_sums(v.notes, v.order, v.order.len());
}

// ---------------------------------------------------------------------------
// The index as a whole
// ---------------------------------------------------------------------------

/// What holds of every index: the paths that are walked are those of the notes, each note is
/// known by its own path, which is tidy, no tag lists a note twice or none at all, and every path
/// that links can lead to stands under its own keys.
pub open spec fn is_valid(v: IndexView) -> bool {
    &&& walks_all(v)
    &&& paths_agree(v.notes)
    &&& v.notes.dom().finite()
    &&& lists_are_tidy(v.tags)
    &&& forall|t: Seq<char>| #[trigger] v.tags.contains_key(t) <==> v.tag_order.contains(t)
    &&& v.links.consistent()
}

/// Whether tags, links and notes of an index belong together: a tag lists just the notes that
/// have it, and links are resolved among just the notes.
pub open spec fn belongs_together(v: IndexView) -> bool {
    &&& tags_agree(v.notes, v.tags)
    &&& links_agree(v.notes, v.links)
    &&& v.links.consistent()
}

/// Tags, links and notes belong together after each change of the index if they did before:
/// after a note was removed, kept out, re-indexed, or could not be re-indexed, and after it was
/// renamed to a path that no other note has.
pub proof fn law_index_stays_consistent(
    before: IndexView,
    after: IndexView,
    p: Seq<char>,
    to: Seq<char>,
    file: NoteFile,
)
    requires
        belongs_together(before),
        path::is_tidy(p),
        path::is_tidy(to),
    ensures
        index::is_without(after, before, p) ==> belongs_together(after),
        index::is_excluding(after, before, p) ==> belongs_together(after),
        index::is_dropped(after, before, p) ==> belongs_together(after),
        index::is_reindexed(after, before, p, file) ==> belongs_together(after),
        index::is_renamed(after, before, p, to, file) && (p == to || !before.notes.contains_key(to))
            ==> belongs_together(after),
{
    law_tags_after_removal(before, p);
    wikilink::law_resolver_stays_consistent(before.links, p);
    wikilink::law_resolver_stays_consistent(before.links.without_path(p), p);
    wikilink::law_resolver_stays_consistent(before.links.without_path(p), to);
    law_resolver_knows_the_notes(before.notes, before.links, p, p, after.notes[p]);
    law_resolver_knows_the_notes(before.notes, before.links, p, to, after.notes[to]);
    if index::is_reindexed(after, before, p, file) {
        law_tags_after_reindexing(before, p, after.notes, file);
    }
    if index::is_renamed(after, before, p, to, file) && (p == to || !before.notes.contains_key(to)) {
        law_tags_after_renaming(before, p, to, after.notes, file);
    }
}

/// Tags, links and notes of an index that was built from files with distinct paths belong
/// together.
pub proof fn law_built_index_is_consistent(
    v: IndexView,
    files: Seq<ScannedFile>,
    patterns: Seq<Seq<char>>,
)
    requires
        walks_all(v),
        distinct_paths(files, patterns),
        index::holds_scanned(v.notes, files, patterns, files.len()),
        v.tags == index::scanned_tags(files, patterns, files.len()),
        v.links == ResolverView::of_paths(v.order),
    ensures
        belongs_together(v),
{
    law_built_tags_agree(v.notes, files, patterns);
    assert forall|p: Seq<char>| #[trigger] v.notes.contains_key(p) implies v.notes[p].path@ == p
        && path::is_tidy(p) by {
        lemma_indexed_at(files, patterns, files.len(), p);
        let file = index::indexed_at(files, patterns, files.len(), p)->Some_0;
        let i = choose|i: int|
            0 <= i < files.len() && index::is_indexed(files[i], patterns)
                && #[trigger] index::scanned_path(files[i]) == p && files[i].note == Some(file);
        let slashed = path::forward_slashes(files[i].path@);
        path::law_tidy_path_is_the_path(slashed, slashed);
    }
    law_built_resolver_knows_the_notes(v);
}

/// After a note was re-indexed it is there as it was read, under its tags, and links find it by
/// its path; all other notes are as they were. Where a tag listed just the notes that had it, the
/// note is under its tags and no others.
pub proof fn law_reindexed_note_is_found(
    before: IndexView,
    after: IndexView,
    p: Seq<char>,
    file: NoteFile,
    q: Seq<char>,
    target: Seq<char>,
)
    requires
        is_valid(after),
        index::is_reindexed(after, before, p, file),
    ensures
        after.notes.contains_key(p),
        index::describes(after.notes[p], p, file.content@, file.stat),
        forall|t: Seq<char>|
            index::all_tags(file.content@).contains(t) ==> #[trigger] listed(after.tags, t, p),
        tags_agree(before.notes, before.tags) ==> forall|t: Seq<char>| #[trigger]
            listed(after.tags, t, p) <==> index::all_tags(file.content@).contains(t),
        knows(after.links, p),
        !wikilink::is_nameless(target) && wikilink::has_separator(target) && wikilink::lookup_key(
            target,
        ) == wikilink::lookup_key(p) ==> after.links.resolved(target) == Some(p),
        q != p ==> (after.notes.contains_key(q) <==> before.notes.contains_key(q)),
        q != p && before.notes.contains_key(q) ==> after.notes[q] == before.notes[q],
        forall|t: Seq<char>|
            q != p ==> (#[trigger] listed(after.tags, t, q) <==> listed(before.tags, t, q)),
{
    let ts = index::all_tags(file.content@);
    lemma_listed_under(before.tags_without(p), ts, ts.len(), p);
    lemma_other_tags(before, p, q);
    assert forall|t: Seq<char>| index::all_tags(file.content@).contains(t) implies
        #[trigger] listed(after.tags, t, p) by {
        lemma_among_all(ts, t);
    }
    if tags_agree(before.notes, before.tags) {
        law_tags_after_reindexing(before, p, after.notes, file);
    }
    assert(path::is_tidy(p));
    lemma_knows(before.links.without_path(p), p, p);
    if !wikilink::is_nameless(target) {
        wikilink::law_added_path_resolves(before.links.without_path(p), p, target);
    }
}

/// Taking a note out leaves the tags of other notes alone.
proof fn lemma_other_tags(v: IndexView, p: Seq<char>, q: Seq<char>)
    ensures
        forall|t: Seq<char>|
            q != p ==> (#[trigger] listed(v.tags_without(p), t, q) <==> listed(v.tags, t, q)),
{
    if v.notes.contains_key(p) {
        let ts = text::strings(v.notes[p].tags@);
        lemma_unlisted_under(v.tags, ts, ts.len(), p);
    }
}

/// After a note could not be re-indexed it is gone: it has no metadata, no list of notes found by
/// their paths holds it, and no link leads to it. All other notes are as they were, with their
/// tags. Where a tag listed just the notes that had it, no tag lists the note.
pub proof fn law_note_that_cannot_be_indexed_is_forgotten(
    before: IndexView,
    after: IndexView,
    p: Seq<char>,
    q: Seq<char>,
    target: Seq<char>,
)
    requires
        is_valid(before),
        is_valid(after),
        path::is_tidy(p),
        index::is_dropped(after, before, p),
    ensures
        !after.notes.contains_key(p),
        forall|paths: Seq<Seq<char>>, j: int|
            0 <= j < index::notes_among(after.notes, paths, paths.len()).len() ==> (
            #[trigger] index::notes_among(after.notes, paths, paths.len())[j]).path@ != p,
        tags_agree(before.notes, before.tags) ==> forall|t: Seq<char>|
            !#[trigger] listed(after.tags, t, p),
        after.links.resolved(target) != Some(p),
        q != p ==> (after.notes.contains_key(q) <==> before.notes.contains_key(q)),
        q != p && before.notes.contains_key(q) ==> after.notes[q] == before.notes[q],
        forall|t: Seq<char>|
            q != p ==> (#[trigger] listed(after.tags, t, q) <==> listed(before.tags, t, q)),
{
    if tags_agree(before.notes, before.tags) {
        law_tags_after_removal(before, p);
    }
    lemma_not_resolved(before.links, p, target);
    lemma_other_tags(before, p, q);
    assert forall|paths: Seq<Seq<char>>, j: int|
        0 <= j < index::notes_among(after.notes, paths, paths.len()).len() implies (
    #[trigger] index::notes_among(after.notes, paths, paths.len())[j]).path@ != p by {
        lemma_notes_among_are_notes(after.notes, paths, paths.len());
    }
}

proof fn lemma_not_resolved(resolver: ResolverView, p: Seq<char>, target: Seq<char>)
    requires
        resolver.consistent(),
        path::is_tidy(p),
    ensures
        resolver.without_path(p).resolved(target) != Some(p),
{
    wikilink::law_removed_path_is_no_candidate(resolver, p, target);
    let all = resolver.without_path(p).candidates(target);
    if all.len() == 1 {
        assert(all.contains(all[0]));
    }
}

/// Whatever a link means, it is a note of the index.
pub proof fn law_links_lead_to_notes(v: IndexView, target: Seq<char>, p: Seq<char>)
    requires
        links_agree(v.notes, v.links),
        v.links.consistent(),
        v.links.candidates(target).contains(p),
    ensures
        v.notes.contains_key(p),
{
    let all = v.links.candidates(target);
    let i = choose|i: int| 0 <= i < all.len() && all[i] == p;
    if wikilink::has_separator(target) {
        assert(v.links.by_path.contains_key(wikilink::lookup_key(target)));
    } else {
        let key = wikilink::target_key(target);
        assert(wikilink::name_key(v.links.by_stem[key][i]) == key);
        assert(knows(v.links, p));
    }
}

proof fn lemma_notes_among_are_notes(
    notes: Map<Seq<char>, NoteMetadata>,
    paths: Seq<Seq<char>>,
    k: nat,
)
    requires
        paths_agree(notes),
    ensures
        forall|j: int|
            0 <= j < index::notes_among(notes, paths, k).len() ==> notes.contains_key(
                (#[trigger] index::notes_among(notes, paths, k)[j]).path@,
            ),
    decreases k,
{
    if k > 0 {
        let before = index::notes_among(notes, paths, (k - 1) as nat);
        let all = index::notes_among(notes, paths, k);
        lemma_notes_among_are_notes(notes, paths, (k - 1) as nat);
        assert forall|j: int| 0 <= j < all.len() implies notes.contains_key(
            (#[trigger] all[j]).path@,
        ) by {
            if j < before.len() {
                assert(before[j] == all[j]);
            } else {
                assert(notes.contains_key(paths[k - 1]));
            }
        }
    }
}

/// After a note was removed it is gone everywhere: it has no metadata, no list of notes found by
/// their paths (by a tag, by links) holds it, it is among the backlinks of no note and has none,
/// no link leads to it, and it is neither an orphan nor the source of a broken link. All other
/// notes are as they were, with their tags, and the count of notes is that of the notes that are
/// left. Where a tag listed just the notes that had it, no tag lists the note.
pub proof fn law_removed_note_is_gone(
    before: IndexView,
    after: IndexView,
    p: Seq<char>,
    q: Seq<char>,
)
    requires
        is_valid(before),
        is_valid(after),
        path::is_tidy(p),
        index::is_without(after, before, p),
    ensures
        !after.notes.contains_key(p),
        tags_agree(before.notes, before.tags) ==> forall|t: Seq<char>|
            !#[trigger] listed(after.tags, t, p),
        forall|t: Seq<char>| !#[trigger] listed(after.backlinks, t, p),
        wikilink::paths_at(after.backlinks, p).len() == 0,
        forall|target: Seq<char>| #[trigger] after.links.resolved(target) != Some(p),
        forall|m: NoteMetadata|
            #[trigger] index::orphans(after, after.order.len()).contains(m) ==> m.path@ != p,
        forall|link: LinkView|
            !(#[trigger] index::broken_among(
                after.notes,
                after.order,
                after.order.len(),
                after.links,
            ).contains((p, link))),
        forall|paths: Seq<Seq<char>>, j: int|
            0 <= j < index::notes_among(after.notes, paths, paths.len()).len() ==> (
            #[trigger] index::notes_among(after.notes, paths, paths.len())[j]).path@ != p,
        q != p ==> (after.notes.contains_key(q) <==> before.notes.contains_key(q)),
        q != p && before.notes.contains_key(q) ==> after.notes[q] == before.notes[q],
        forall|t: Seq<char>|
            q != p ==> (#[trigger] listed(after.tags, t, q) <==> listed(before.tags, t, q)),
        after.notes.len() == if before.notes.contains_key(p) {
            before.notes.len() - 1
        } else {
            before.notes.len() as int
        },
        after.notes.len() <= usize::MAX ==> after.stats.total_notes == after.notes.len(),
{
    if tags_agree(before.notes, before.tags) {
        law_tags_after_removal(before, p);
    }
    lemma_other_tags(before, p, q);
    law_removed_note_has_no_links(before, after, p);
    assert forall|m: NoteMetadata|
        #[trigger] index::orphans(after, after.order.len()).contains(m) implies m.path@ != p by {
        law_reported_orphans(after, m);
        let at = choose|at: Seq<char>| #[trigger]
            after.notes.contains_key(at) && after.notes[at] == m && index::is_orphan(after, at);
        assert(after.notes[at].path@ == at);
    }
    assert forall|paths: Seq<Seq<char>>, j: int|
        0 <= j < index::notes_among(after.notes, paths, paths.len()).len() implies (
    #[trigger] index::notes_among(after.notes, paths, paths.len())[j]).path@ != p by {
        lemma_notes_among_are_notes(after.notes, paths, paths.len());
    }
    assert forall|link: LinkView|
        !(#[trigger] index::broken_among(
            after.notes,
            after.order,
            after.order.len(),
            after.links,
        ).contains((p, link))) by {
        law_broken_links(after, p, link);
    }
    assert(after.notes.dom() =~= before.notes.dom().remove(p));
}

// ---------------------------------------------------------------------------
// Indices that answer alike
// ---------------------------------------------------------------------------

/// Whether metadata says the same.
pub open spec fn alike(a: NoteMetadata, b: NoteMetadata) -> bool {
    &&& a.path@ == b.path@
    &&& a.title@ == b.title@
    &&& text::strings(a.tags@) == text::strings(b.tags@)
    &&& frontmatter::parsed_result(Ok(a.frontmatter)) == frontmatter::parsed_result(
        Ok(b.frontmatter),
    )
    &&& a.headings@.map_values(|h: Heading| h@) == b.headings@.map_values(|h: Heading| h@)
    &&& parser::link_views(a.links@) == parser::link_views(b.links@)
    &&& text::strings(a.block_refs@) == text::strings(b.block_refs@)
    &&& a.stat == b.stat
}

/// Whether the same paths are those of notes that say the same.
pub open spec fn same_notes(
    a: Map<Seq<char>, NoteMetadata>,
    b: Map<Seq<char>, NoteMetadata>,
) -> bool {
    &&& forall|p: Seq<char>| #[trigger] a.contains_key(p) <==> b.contains_key(p)
    &&& forall|p: Seq<char>| #[trigger] a.contains_key(p) ==> alike(a[p], b[p])
}

/// Whether every question to one index has the answer that the other one gives: about a note,
/// a tag, the notes that link to a note, what a link means, the notes that are kept out, and the
/// counts.
pub open spec fn same_answers(a: IndexView, b: IndexView) -> bool {
    &&& same_notes(a.notes, b.notes)
    &&& forall|t: Seq<char>, p: Seq<char>| #[trigger]
        listed(a.tags, t, p) <==> listed(b.tags, t, p)
    &&& forall|t: Seq<char>, p: Seq<char>| #[trigger]
        listed(a.backlinks, t, p) <==> listed(b.backlinks, t, p)
    &&& forall|target: Seq<char>| #[trigger]
        a.links.candidates(target) == b.links.candidates(target)
    &&& a.excluded == b.excluded
    &&& a.stats == b.stats
}

proof fn lemma_counts_take(
    a: Map<Seq<char>, NoteMetadata>,
    b: Map<Seq<char>, NoteMetadata>,
    s: Seq<Seq<char>>,
    t: Seq<Seq<char>>,
    k: nat,
)
    requires
        k <= s.len(),
        k <= t.len(),
        forall|i: int|
            0 <= i < k ==> #[trigger] s[i] == t[i] && a[s[i]].links@.len() == b[s[i]].links@.len()
                && a[s[i]].stat.size == b[s[i]].stat.size,
    ensures
        index::link_count(a, s, k) == index::link_count(b, t, k),
        index::size_of_notes(a, s, k) == index::size_of_notes(b, t, k),
    decreases k,
{
    if k > 0 {
        lemma_counts_take(a, b, s, t, (k - 1) as nat);
        assert(s[k - 1] == t[k - 1]);
    }
}

proof fn lemma_counts_remove(notes: Map<Seq<char>, NoteMetadata>, s: Seq<Seq<char>>, i: int)
    requires
        0 <= i < s.len(),
    ensures
        index::link_count(notes, s, s.len()) == index::link_count(
            notes,
            s.remove(i),
            (s.len() - 1) as nat,
        ).wrapping_add(notes[s[i]].links@.len() as usize),
        index::size_of_notes(notes, s, s.len()) == index::size_of_notes(
            notes,
            s.remove(i),
            (s.len() - 1) as nat,
        ).wrapping_add(notes[s[i]].stat.size),
    decreases s.len(),
{
    let n = s.len() as int;
    let less = s.remove(i);
    let d = s.drop_last();
    lemma_counts_take(notes, notes, s, d, (n - 1) as nat);
    if i == n - 1 {
        assert(less =~= d);
    } else {
        lemma_counts_remove(notes, d, i);
        assert(less.drop_last() =~= d.remove(i));
        lemma_counts_take(notes, notes, less, d.remove(i), (n - 2) as nat);
        assert(less[n - 2] == s[n - 1]);
    }
}

proof fn lemma_counts_agree(
    a: Map<Seq<char>, NoteMetadata>,
    b: Map<Seq<char>, NoteMetadata>,
    s: Seq<Seq<char>>,
    t: Seq<Seq<char>>,
)
    requires
        s.no_duplicates(),
        t.no_duplicates(),
        forall|p: Seq<char>| #[trigger] s.contains(p) <==> t.contains(p),
        forall|p: Seq<char>| #[trigger]
            s.contains(p) ==> a[p].links@.len() == b[p].links@.len() && a[p].stat.size
                == b[p].stat.size,
    ensures
        index::link_count(a, s, s.len()) == index::link_count(b, t, t.len()),
        index::size_of_notes(a, s, s.len()) == index::size_of_notes(b, t, t.len()),
    decreases s.len(),
{
    if s.len() == 0 {
        if t.len() > 0 {
            assert(t.contains(t[0]));
            assert(s.contains(t[0]));
        }
    } else {
        let p = s.last();
        let d = s.drop_last();
        assert(s.contains(p));
        let i = choose|i: int| 0 <= i < t.len() && t[i] == p;
        let less = t.remove(i);
        assert forall|q: Seq<char>| #[trigger] d.contains(q) <==> less.contains(q) by {
            lemma_push_contains(d, p, q);
            assert(s =~= d.push(p));
            assert(s.contains(q) <==> t.contains(q));
            if less.contains(q) {
                let j = choose|j: int| 0 <= j < less.len() && less[j] == q;
                if j < i {
                    assert(t[j] == q);
                } else {
                    assert(t[j + 1] == q);
                }
            }
            if d.contains(q) {
                let h = choose|h: int| 0 <= h < d.len() && d[h] == q;
                assert(s[h] == q && s[h] != s[s.len() - 1]);
                let j = choose|j: int| 0 <= j < t.len() && t[j] == q;
                if j < i {
                    assert(less[j] == q);
                } else {
                    assert(less[j - 1] == q);
                }
            }
        }
        assert forall|q: Seq<char>| #[trigger] d.contains(q) implies a[q].links@.len()
            == b[q].links@.len() && a[q].stat.size == b[q].stat.size by {
            lemma_push_contains(d, p, q);
            assert(s =~= d.push(p));
            assert(s.contains(q));
        }
        assert(d.no_duplicates());
        assert(less.no_duplicates()) by {
            assert forall|x: int, y: int|
                0 <= x < less.len() && 0 <= y < less.len() && x != y implies less[x] != less[y] by {
                let u = if x < i {
                    x
                } else {
                    x + 1
                };
                let w = if y < i {
                    y
                } else {
                    y + 1
                };
                assert(less[x] == t[u] && less[y] == t[w]);
            }
        }
        lemma_counts_agree(a, b, d, less);
        lemma_counts_remove(b, t, i);
        lemma_counts_remove(a, s, s.len() - 1);
        assert(s.remove(s.len() - 1) =~= d);
    }
}

proof fn lemma_tag_is_listed(tags: Map<Seq<char>, Seq<Seq<char>>>, t: Seq<char>)
    requires
        lists_are_tidy(tags),
    ensures
        tags.contains_key(t) <==> exists|p: Seq<char>| #[trigger] listed(tags, t, p),
{
    if tags.contains_key(t) {
        assert(tags[t].len() > 0);
        assert(tags[t].contains(tags[t][0]));
        assert(listed(tags, t, tags[t][0]));
    }
}

/// Two indices that hold the same notes under the same tags, resolve links alike and keep out the
/// same notes answer every question alike, in whatever order they walk their notes.
pub proof fn law_same_notes_give_the_same_answers(a: IndexView, b: IndexView)
    requires
        is_valid(a),
        is_valid(b),
        a.up_to_date(),
        b.up_to_date(),
        same_notes(a.notes, b.notes),
        forall|t: Seq<char>, p: Seq<char>| #[trigger]
            listed(a.tags, t, p) <==> listed(b.tags, t, p),
        a.links == b.links,
        a.excluded == b.excluded,
        a.other_files == b.other_files,
        a.other_bytes == b.other_bytes,
    ensures
        same_answers(a, b),
{
    assert forall|t: Seq<char>, p: Seq<char>| #[trigger]
        listed(a.backlinks, t, p) <==> listed(b.backlinks, t, p) by {
        law_backlinks_are_the_links_turned_round(a, p, t);
        law_backlinks_are_the_links_turned_round(b, p, t);
        if a.notes.contains_key(p) {
            assert(alike(a.notes[p], b.notes[p]));
        }
    }
    assert(a.notes.dom() =~= b.notes.dom());
    assert forall|t: Seq<char>| a.tags.contains_key(t) <==> b.tags.contains_key(t) by {
        lemma_tag_is_listed(a.tags, t);
        lemma_tag_is_listed(b.tags, t);
        if a.tags.contains_key(t) {
            let p = choose|p: Seq<char>| #[trigger] listed(a.tags, t, p);
            assert(listed(b.tags, t, p));
        }
        if b.tags.contains_key(t) {
            let p = choose|p: Seq<char>| #[trigger] listed(b.tags, t, p);
            assert(listed(a.tags, t, p));
        }
    }
    assert(a.tags.dom() =~= b.tags.dom());
    assert forall|p: Seq<char>| #[trigger] a.order.contains(p) <==> b.order.contains(p) by {
        assert(a.notes.contains_key(p) <==> b.notes.contains_key(p));
    }
    assert forall|p: Seq<char>| #[trigger] a.order.contains(p) implies a.notes[p].links@.len()
        == b.notes[p].links@.len() && a.notes[p].stat.size == b.notes[p].stat.size by {
        assert(a.notes.contains_key(p));
        assert(alike(a.notes[p], b.notes[p]));
        assert(parser::link_views(a.notes[p].links@).len() == a.notes[p].links@.len());
        assert(parser::link_views(b.notes[p].links@).len() == b.notes[p].links@.len());
    }
    lemma_counts_agree(a.notes, b.notes, a.order, b.order);
}

/// Re-indexing a note twice with nothing changed in between gives the same answers as
/// re-indexing it once.
pub proof fn law_reindexing_twice_is_reindexing_once(
    before: IndexView,
    once: IndexView,
    twice: IndexView,
    p: Seq<char>,
    file: NoteFile,
    again: NoteFile,
)
    requires
        is_valid(once),
        is_valid(twice),
        index::is_reindexed(once, before, p, file),
        index::is_reindexed(twice, once, p, again),
        again.content@ == file.content@,
        again.stat == file.stat,
    ensures
        same_answers(twice, once),
{
    let ts = index::all_tags(file.content@);
    let old_tags = before.tags_without(p);
    lemma_listed_under(old_tags, ts, ts.len(), p);
    lemma_unlisted_under(once.tags, ts, ts.len(), p);
    lemma_listed_under(once.tags_without(p), ts, ts.len(), p);
    assert(once.notes.contains_key(p) && path::is_tidy(p));
    assert forall|t: Seq<char>, q: Seq<char>| #[trigger]
        listed(twice.tags, t, q) <==> listed(once.tags, t, q) by {
        assert(listed(once.tags_without(p), t, q) <==> listed(once.tags, t, q) && !(q == p
            && among(ts, ts.len(), t)));
        assert(listed(once.tags, t, q) <==> listed(old_tags, t, q) || (q == p && among(
            ts,
            ts.len(),
            t,
        )));
    }
    let name = wikilink::name_key(p);
    let first = before.links.without_path(p);
    let left = wikilink::others(wikilink::paths_at(before.links.by_stem, name), p);
    lemma_others(wikilink::paths_at(before.links.by_stem, name), p);
    assert(!left.contains(p));
    assert(wikilink::paths_at(first.by_stem, name) =~= left);
    lemma_others_push(left, p);
    assert(wikilink::paths_at(once.links.by_stem, name) == left.push(p));
    assert(wikilink::paths_at(once.links.without_path(p).by_stem, name) =~= left);
    assert(twice.links.by_stem =~= once.links.by_stem);
    assert(twice.links.by_path =~= once.links.by_path);
    lemma_others(before.excluded, p);
    lemma_others_none(once.excluded, p);
    law_same_notes_give_the_same_answers(twice, once);
}

proof fn lemma_others_none(list: Seq<Seq<char>>, p: Seq<char>)
    requires
        !list.contains(p),
    ensures
        wikilink::others(list, p) == list,
    decreases list.len(),
{
    if list.len() > 0 {
        let d = list.drop_last();
        assert(list =~= d.push(list.last()));
        lemma_push_contains(d, list.last(), p);
        lemma_others_none(d, p);
    }
}

proof fn lemma_others_push(list: Seq<Seq<char>>, p: Seq<char>)
    requires
        !list.contains(p),
    ensures
        wikilink::others(list.push(p), p) == list,
{
    assert(list.push(p).drop_last() =~= list);
    lemma_others_none(list, p);
}

/// Removing a path that is not indexed changes no answer, if no indexed note shares its key and
/// it is not recorded as kept out. (Links can lead to a path that is not indexed after a rename to
/// it failed, and answers are out of date after re-indexing or renaming a note failed.)
pub proof fn law_removing_an_unknown_path_changes_nothing(
    before: IndexView,
    after: IndexView,
    p: Seq<char>,
)
    requires
        is_valid(before),
        is_valid(after),
        links_agree(before.notes, before.links),
        before.up_to_date(),
        path::is_tidy(p),
        !before.notes.contains_key(p),
        !before.excluded.contains(p),
        forall|q: Seq<char>| #[trigger]
            before.notes.contains_key(q) ==> wikilink::lookup_key(q) != wikilink::lookup_key(p),
        index::is_without(after, before, p),
    ensures
        same_answers(after, before),
{
    let key = wikilink::lookup_key(p);
    let name = wikilink::name_key(p);
    if before.links.by_path.contains_key(key) {
        assert(before.notes.contains_key(before.links.by_path[key]));
        assert(wikilink::lookup_key(before.links.by_path[key]) == key);
    }
    assert(!knows(before.links, p));
    lemma_others_none(wikilink::paths_at(before.links.by_stem, name), p);
    assert(after.links.by_path =~= before.links.by_path);
    assert(after.links.by_stem =~= before.links.by_stem);
    assert(after.notes =~= before.notes);
    lemma_others_none(before.excluded, p);
    law_same_notes_give_the_same_answers(after, before);
}

/// Renaming a note gives the same answers as removing it under its old path and indexing it under
/// its new one, if no other note has the new path and links do not lead there yet (they do after
/// a rename to it failed).
pub proof fn law_renaming_is_removing_and_indexing(
    before: IndexView,
    renamed: IndexView,
    removed: IndexView,
    added: IndexView,
    from: Seq<char>,
    to: Seq<char>,
    file: NoteFile,
    again: NoteFile,
)
    requires
        is_valid(renamed),
        is_valid(added),
        path::is_tidy(from),
        from == to || !before.notes.contains_key(to) && !knows(before.links, to),
        index::is_renamed(renamed, before, from, to, file),
        index::is_without(removed, before, from),
        index::is_reindexed(added, removed, to, again),
        again.content@ == file.content@,
        again.stat == file.stat,
    ensures
        same_answers(renamed, added),
{
    assert(added.notes.contains_key(to) && path::is_tidy(to));
    lemma_knows(before.links, from, to);
    let name = wikilink::name_key(to);
    let less = removed.links;
    assert(!removed.notes.contains_key(to));
    assert(!knows(less, to));
    lemma_others_none(wikilink::paths_at(less.by_stem, name), to);
    assert(wikilink::paths_at(less.without_path(to).by_stem, name) =~= wikilink::paths_at(
        less.by_stem,
        name,
    ));
    assert(renamed.links.by_stem =~= added.links.by_stem);
    assert(renamed.links.by_path =~= added.links.by_path);
    law_same_notes_give_the_same_answers(renamed, added);
}

// ---------------------------------------------------------------------------
// Queries
// ---------------------------------------------------------------------------

/// A text is searched for as it is written: behind the flag that ignores case the pattern has no
/// other match than the characters of the query, whatever they mean in a pattern.
pub proof fn law_text_search_is_literal(query: Seq<char>)
    ensures
        index::text_pattern(query).len() >= 4,
        index::text_pattern(query).take(4) == seq!['(', '?', 'i', ')'],
        pattern::literal_of(index::text_pattern(query).skip(4)) == Some(query),
{
    reveal_strlit("(?i)");
    let p = index::text_pattern(query);
    assert("(?i)"@ =~= seq!['(', '?', 'i', ')']);
    assert(p.take(4) =~= "(?i)"@);
    assert(p.skip(4) =~= pattern::escaped(query));
    pattern::law_escaped_text_is_literal(query);
}

/// A text field contains another text just where the text stands somewhere in it, at its start,
/// in its middle or at its end. A list contains the values that are equal to one of its elements;
/// any other field contains just what is equal to it.
pub proof fn law_contained_values(field: JsonView, value: JsonView, h: Seq<char>, n: Seq<char>)
    ensures
        index::answers(JsonView::Str(h), FieldQuery::Contains(JsonView::Str(n))) <==> exists|
            a: Seq<char>,
            b: Seq<char>,
        |
            h == #[trigger] (a + n + b),
        value !is Str ==> !index::answers(JsonView::Str(h), FieldQuery::Contains(value)),
        field !is Array && field !is Str ==> (index::answers(field, FieldQuery::Contains(value))
            <==> json::json_equal(field, value)),
        forall|a: Seq<JsonView>, b: Seq<JsonView>|
            index::answers(
                JsonView::Array(#[trigger] (a.push(value) + b)),
                FieldQuery::Contains(value),
            ) || !json::json_equal(value, value),
        index::answers(JsonView::Array(Seq::empty()), FieldQuery::Contains(value)) == false,
{
    text::law_found_part(h, n);
    match text::find(h, n) {
        Some(i) => {
            let a = h.take(i as int);
            let b = h.skip((i + n.len()) as int);
            assert(h =~= a + n + b) by {
                assert(h.subrange(i as int, (i + n.len()) as int) == n);
                assert forall|j: int| i <= j < i + n.len() implies h[j] == n[j - i] by {
                    assert(h.subrange(i as int, (i + n.len()) as int)[j - i] == h[j]);
                }
            }
        },
        None => {
            if exists|a: Seq<char>, b: Seq<char>| h == #[trigger] (a + n + b) {
                let (a, b) = choose|a: Seq<char>, b: Seq<char>| h == #[trigger] (a + n + b);
                let i = a.len() as int;
                assert(h.subrange(i, i + n.len()) =~= n);
                assert(text::stands_at(h, n, i));
            }
        },
    }
    assert forall|a: Seq<JsonView>, b: Seq<JsonView>|
        index::answers(JsonView::Array(#[trigger] (a.push(value) + b)), FieldQuery::Contains(value))
            || !json::json_equal(value, value) by {
        let all = a.push(value) + b;
        assert(all[a.len() as int] == value);
    }
}

/// A field is found by a value that equals it, and a list by each value that equals one of its
/// elements; a list is found by no other value.
pub proof fn law_equal_values(field: JsonView, value: JsonView, items: Seq<JsonView>)
    ensures
        json::json_equal(field, value) ==> index::answers(field, FieldQuery::Equals(value)),
        field !is Array && index::answers(field, FieldQuery::Equals(value)) ==> json::json_equal(
            field,
            value,
        ),
        index::answers(JsonView::Array(items), FieldQuery::Equals(value)) <==> json::json_equal(
            JsonView::Array(items),
            value,
        ) || exists|i: int| 0 <= i < items.len() && json::json_equal(#[trigger] items[i], value),
        index::answers(JsonView::Array(items), FieldQuery::Contains(value)) <==> exists|i: int|
            0 <= i < items.len() && json::json_equal(#[trigger] items[i], value),
        index::answers(field, FieldQuery::Exists),
{
}

/// A note has the tags of its front matter and those in its text, each once and in order.
pub proof fn law_tags_of_note(content: Seq<char>, t: Seq<char>, i: int, j: int)
    ensures
        index::all_tags(content).contains(t) <==> index::front_tags(content).contains(t)
            || parser::inline_tags(content).contains(t),
        index::all_tags(content).no_duplicates(),
        0 <= i < j < index::all_tags(content).len() ==> text::str_less(
            index::all_tags(content)[i],
            index::all_tags(content)[j],
        ),
        frontmatter::front_fields(content) matches Ok(Some(m)) ==> index::front_tags(content)
            == frontmatter::string_list(JsonView::Object(m), seq!['t', 'a', 'g', 's']),
        !(frontmatter::front_fields(content) matches Ok(Some(_))) ==> index::front_tags(
            content,
        ).len() == 0,
{
    let f = index::front_tags(content);
    let l = parser::inline_tags(content);
    let all = f + l;
    text::law_sorted_set(all, t);
    reveal_strlit("tags");
    assert("tags"@ =~= seq!['t', 'a', 'g', 's']);
    assert(all.contains(t) <==> f.contains(t) || l.contains(t)) by {
        if f.contains(t) {
            let k = choose|k: int| 0 <= k < f.len() && f[k] == t;
            assert(all[k] == t);
        }
        if l.contains(t) {
            let k = choose|k: int| 0 <= k < l.len() && l[k] == t;
            assert(all[f.len() + k] == t);
        }
        if all.contains(t) {
            let k = choose|k: int| 0 <= k < all.len() && all[k] == t;
            if k < f.len() {
                assert(f[k] == t);
            } else {
                assert(l[k - f.len()] == t);
            }
        }
    }
    if 0 <= i < j < index::all_tags(content).len() {
        assert(text::str_less(
            text::sorted_set(all, all.len())[i],
            text::sorted_set(all, all.len())[j],
        ));
    }
}

/// A tag lies under itself and over the tags that go on behind it with a `/`, and over no others.
pub proof fn law_nested_tags(tag: Seq<char>, prefix: Seq<char>, rest: Seq<char>)
    ensures
        index::under_tag(prefix, prefix),
        index::under_tag(prefix + seq!['/'] + rest, prefix),
        index::under_tag(prefix + rest, prefix) ==> rest.len() == 0 || rest[0] == '/',
        index::under_tag(tag, prefix) ==> tag.len() >= prefix.len() && tag.take(
            prefix.len() as int,
        ) == prefix,
{
    let n = prefix.len() as int;
    let t = prefix + seq!['/'];
    assert((t + rest).take(t.len() as int) =~= t);
    if index::under_tag(prefix + rest, prefix) {
        if prefix + rest == prefix {
            assert((prefix + rest).len() == prefix.len());
        } else {
            assert((prefix + rest)[n] == t[n]);
        }
    }
    if index::under_tag(tag, prefix) {
        assert(tag.take(n) =~= prefix);
    }
}

/// The text around a match is as wide as was asked for, on both sides of it, and ends where the
/// text ends.
pub proof fn law_width_of_context(
    content: Seq<char>,
    a: int,
    b: int,
    c: int,
    d: int,
    context_len: int,
)
    requires
        0 <= a <= b <= c <= d <= content.len(),
        text::byte_len(content) <= usize::MAX,
        context_len >= 0,
        a == 0 || text::byte_len(content.take(b)) - text::byte_len(content.take(a)) == context_len,
        a == 0 ==> text::byte_len(content.take(b)) <= context_len,
        d == content.len() || text::byte_len(content.take(d)) - text::byte_len(content.take(c))
            == context_len,
        d == content.len() ==> text::byte_len(content) - text::byte_len(content.take(c))
            <= context_len,
    ensures
        ({
            let m = index::match_in_context(
                content,
                text::byte_len(content.take(b)) as int,
                text::byte_len(content.take(c)) as int,
                context_len,
            );
            &&& m.context == content.subrange(a, d)
            &&& m.match_start == b - a
            &&& m.match_end == c - a
        }),
{
    text::law_characters_and_bytes(content, a, d);
    text::law_characters_and_bytes(content, b, c);
    text::law_characters_and_bytes(content, d, d);
    text::law_characters_and_bytes(content, c, d);
    let n = content.len() as int;
    assert(content.take(n) =~= content);
    assert(content.take(0) =~= Seq::<char>::empty());
    text::law_characters_and_bytes(content, 0, n);
    text::law_characters_and_bytes(content, n, n);
    let end = text::byte_len(content.take(c)) as int;
    let hi = if end + context_len > usize::MAX {
        usize::MAX as int
    } else {
        end + context_len
    };
    if d == n {
        text::lemma_chars_before(content, text::byte_len(content) as int, hi);
    } else {
        text::lemma_byte_len_prefix(content, d);
    }
}

proof fn lemma_file_found(files: Seq<ScannedFile>, patterns: Seq<Seq<char>>, k: nat, i: int)
    requires
        0 <= i < k <= files.len(),
        index::is_indexed(files[i], patterns),
        forall|j: int|
            i < j < k ==> index::scanned_path(#[trigger] files[j]) != index::scanned_path(files[i]),
    ensures
        index::indexed_at(files, patterns, k, index::scanned_path(files[i])) == files[i].note,
    decreases k,
{
    if i < k - 1 {
        assert(index::scanned_path(files[k - 1]) != index::scanned_path(files[i]));
        lemma_file_found(files, patterns, (k - 1) as nat, i);
    }
}

proof fn lemma_found_file(files: Seq<ScannedFile>, patterns: Seq<Seq<char>>, k: nat, p: Seq<char>)
    requires
        k <= files.len(),
        index::indexed_at(files, patterns, k, p) is Some,
    ensures
        exists|i: int|
            0 <= i < k && index::is_indexed(#[trigger] files[i], patterns) && index::scanned_path(
                files[i],
            ) == p && files[i].note == index::indexed_at(files, patterns, k, p),
    decreases k,
{
    if index::is_indexed(files[k - 1], patterns) && index::scanned_path(files[k - 1]) == p {
    } else {
        lemma_found_file(files, patterns, (k - 1) as nat, p);
    }
}

/// An index that was built from files with distinct paths holds the Markdown files that are not
/// hidden, that no pattern keeps out and whose front matter could be read, each as it was read,
/// and no others.
pub proof fn law_built_notes(
    notes: Map<Seq<char>, NoteMetadata>,
    files: Seq<ScannedFile>,
    patterns: Seq<Seq<char>>,
    f: int,
    p: Seq<char>,
)
    requires
        index::holds_scanned(notes, files, patterns, files.len()),
        forall|i: int, j: int|
            0 <= i < j < files.len() ==> index::scanned_path(#[trigger] files[i])
                != index::scanned_path(#[trigger] files[j]),
    ensures
        notes.contains_key(p) ==> exists|i: int|
            0 <= i < files.len() && index::scanned_path(#[trigger] files[i]) == p
                && path::is_markdown(files[i].path@) && files[i].note is Some,
        0 <= f < files.len() && path::is_markdown(files[f].path@) && fs::shown(
            Seq::empty(),
            files[f].path@,
        ) && !exclude::any_matches(patterns, index::scanned_path(files[f])) && (
        files[f].note matches Some(n) && frontmatter::front_fields(n.content@) is Ok) ==> {
            let q = index::scanned_path(files[f]);
            &&& notes.contains_key(q)
            &&& index::describes(notes[q], q, files[f].note->0.content@, files[f].note->0.stat)
        },
        0 <= f < files.len() && (!fs::shown(Seq::empty(), files[f].path@) || !path::is_markdown(
            files[f].path@,
        ) || exclude::any_matches(patterns, index::scanned_path(files[f])) || files[f].note is None)
            ==> !notes.contains_key(index::scanned_path(files[f])),
{
    let n = files.len();
    if notes.contains_key(p) {
        lemma_found_file(files, patterns, n, p);
    }
    if 0 <= f < n {
        let q = index::scanned_path(files[f]);
        if index::is_indexed(files[f], patterns) {
            assert forall|j: int| f < j < n implies index::scanned_path(#[trigger] files[j]) != q by {
                assert(index::scanned_path(files[f]) != index::scanned_path(files[j]));
            }
            lemma_file_found(files, patterns, n, f);
            assert(index::indexed_at(files, patterns, n, q) is Some);
            assert(notes.contains_key(q));
        } else if notes.contains_key(q) {
            assert(index::indexed_at(files, patterns, n, q) is Some);
            lemma_found_file(files, patterns, n, q);
            let i = choose|i: int|
                0 <= i < n && index::is_indexed(#[trigger] files[i], patterns)
                    && index::scanned_path(files[i]) == q && files[i].note == index::indexed_at(
                    files,
                    patterns,
                    n,
                    q,
                );
            if i < f {
                assert(index::scanned_path(files[i]) != index::scanned_path(files[f]));
            } else if f < i {
                assert(index::scanned_path(files[f]) != index::scanned_path(files[i]));
            }
        }
    }
}

/// The other files are those that are neither hidden nor kept out nor Markdown: each more of
/// them counts one, and each more file of another kind counts nothing.
pub proof fn law_other_files(files: Seq<ScannedFile>, patterns: Seq<Seq<char>>, f: ScannedFile)
    ensures
        ({
            let n = files.len();
            let more = files.push(f);
            let before = index::scanned_others(files, patterns, n);
            let bytes = index::scanned_bytes(files, patterns, n);
            let other = fs::shown(Seq::empty(), f.path@) && !path::is_markdown(f.path@)
                && !exclude::any_matches(
                patterns,
                path::tidy(path::forward_slashes(f.path@)),
            );
            &&& index::scanned_others(Seq::empty(), patterns, 0) == 0
            &&& index::scanned_bytes(Seq::empty(), patterns, 0) == 0
            &&& index::scanned_others(more, patterns, n + 1) == before + (if other {
                1int
            } else {
                0
            })
            &&& other && (f.size matches Some(s) && bytes + s <= u64::MAX) ==> index::scanned_bytes(
                more,
                patterns,
                n + 1,
            ) == bytes + f.size->0
            &&& !other || f.size is None ==> index::scanned_bytes(more, patterns, n + 1) == bytes
        }),
{
    let n = files.len();
    let more = files.push(f);
    lemma_others_of_prefix(files, f, patterns, n);
    assert(more[n as int] == f);
}

proof fn lemma_others_of_prefix(
    files: Seq<ScannedFile>,
    f: ScannedFile,
    patterns: Seq<Seq<char>>,
    k: nat,
)
    requires
        k <= files.len(),
    ensures
        index::scanned_others(files.push(f), patterns, k) == index::scanned_others(
            files,
            patterns,
            k,
        ),
        index::scanned_bytes(files.push(f), patterns, k) == index::scanned_bytes(
            files,
            patterns,
            k,
        ),
    decreases k,
{
    if k > 0 {
        assert(files.push(f)[k - 1] == files[k - 1]);
        lemma_others_of_prefix(files, f, patterns, (k - 1) as nat);
    }
}

/// What the index knows of a note is what stands in it: its title is the name of its file without
/// the extension, its tags are all of its tags, its headings and links are those of its text with
/// their lines, and it has front matter just where the file has.
pub proof fn law_described_note(
    m: NoteMetadata,
    dir: Seq<char>,
    stem: Seq<char>,
    ext: Seq<char>,
    content: Seq<char>,
    stat: FileStat,
    i: int,
)
    requires
        path::is_name(stem + seq!['.'] + ext),
        stem.len() > 0,
        !ext.contains('.'),
        index::describes(m, dir + seq!['/'] + (stem + seq!['.'] + ext), content, stat),
        frontmatter::front_fields(content) is Ok,
    ensures
        m.path@ == dir + seq!['/'] + (stem + seq!['.'] + ext),
        m.title@ == stem,
        text::strings(m.tags@) == index::all_tags(content),
        m.frontmatter is Some <==> frontmatter::raw_yaml(content) is Some,
        m.headings@.len() == parser::note_headings(content).len(),
        0 <= i < m.headings@.len() ==> {
            let h = parser::note_headings(content)[i];
            m.headings@[i].level == h.level && m.headings@[i].text@ == h.text && m.headings@[i].line
                == h.line
        },
        m.links@.len() == parser::note_links(content).len(),
        0 <= i < m.links@.len() ==> m.links@[i]@ == parser::note_links(content)[i],
        m.stat == stat,
{
    let name = stem + seq!['.'] + ext;
    path::law_file_name(dir, name);
    path::law_stem_and_extension(stem, ext);
    let hs = m.headings@.map_values(|h: Heading| h@);
    let ps = parser::note_headings(content).map_values(
        |h: parser::HeadingPosView| parser::plain_heading(h),
    );
    assert(hs == ps);
    assert(hs.len() == m.headings@.len());
    assert(ps.len() == parser::note_headings(content).len());
    if 0 <= i < m.headings@.len() {
        assert(hs[i] == m.headings@[i]@);
        assert(ps[i] == parser::plain_heading(parser::note_headings(content)[i]));
    }
    assert(parser::link_views(m.links@).len() == m.links@.len());
    if 0 <= i < m.links@.len() {
        assert(parser::link_views(m.links@)[i] == m.links@[i]@);
    }
}

/// A note that is indexed, removed or dropped is no longer recorded as kept out, one that is kept
/// out is recorded, and a renamed note is recorded under neither of its paths; the records of all
/// other notes stay.
pub proof fn law_record_of_notes_kept_out(
    before: IndexView,
    after: IndexView,
    p: Seq<char>,
    to: Seq<char>,
    file: NoteFile,
    q: Seq<char>,
)
    ensures
        index::is_without(after, before, p) ==> (after.excluded.contains(q)
            <==> before.excluded.contains(q) && q != p),
        index::is_dropped(after, before, p) ==> (after.excluded.contains(q)
            <==> before.excluded.contains(q) && q != p),
        index::is_reindexed(after, before, p, file) ==> (after.excluded.contains(q)
            <==> before.excluded.contains(q) && q != p),
        index::is_half_renamed(after, before, p, to) ==> (after.excluded.contains(q)
            <==> before.excluded.contains(q) && q != p),
        index::is_renamed(after, before, p, to, file) ==> (after.excluded.contains(q)
            <==> before.excluded.contains(q) && q != p && q != to),
        index::is_excluding(after, before, p) ==> (after.excluded.contains(q)
            <==> before.excluded.contains(q) || q == p),
        index::is_without(after, before, p) || index::is_dropped(after, before, p)
            || index::is_reindexed(after, before, p, file) || index::is_half_renamed(
            after,
            before,
            p,
            to,
        ) || index::is_renamed(after, before, p, to, file) || index::is_excluding(after, before, p)
            ==> after.other_files == before.other_files && after.other_bytes == before.other_bytes,
{
    wikilink::law_list_without_path(before.excluded, p, q);
    wikilink::law_list_without_path(wikilink::others(before.excluded, p), to, q);
    if index::is_excluding(after, before, p) {
        let rest = wikilink::others(before.excluded, p);
        assert(after.excluded == rest.push(p));
        assert(rest.push(p)[rest.len() as int] == p);
        if rest.contains(q) {
            let i = choose|i: int| 0 <= i < rest.len() && rest[i] == q;
            assert(rest.push(p)[i] == q);
        }
        if rest.push(p).contains(q) && q != p {
            let i = choose|i: int| 0 <= i < rest.push(p).len() && rest.push(p)[i] == q;
            assert(rest[i] == q);
        }
    }
}

/// After a note could not be renamed it is gone under its old path, and so are the backlinks that
/// led there; other backlinks and the counts are as they were.
pub proof fn law_half_renamed_note(
    before: IndexView,
    after: IndexView,
    from: Seq<char>,
    to: Seq<char>,
    q: Seq<char>,
)
    requires
        index::is_half_renamed(after, before, from, to),
    ensures
        !after.notes.contains_key(from),
        wikilink::paths_at(after.backlinks, from).len() == 0,
        q != from ==> wikilink::paths_at(after.backlinks, q) == wikilink::paths_at(
            before.backlinks,
            q,
        ),
        q != from ==> (after.notes.contains_key(q) <==> before.notes.contains_key(q)),
        after.stats == before.stats,
{
}

/// A Markdown file that is not hidden and that a pattern keeps out is recorded.
pub proof fn law_kept_out_files_are_recorded(
    files: Seq<ScannedFile>,
    patterns: Seq<Seq<char>>,
    k: nat,
    i: int,
)
    requires
        0 <= i < k <= files.len(),
        path::is_markdown(files[i].path@),
        fs::shown(Seq::empty(), files[i].path@),
        exclude::any_matches(patterns, index::scanned_path(files[i])),
    ensures
        index::scanned_excluded(files, patterns, k).contains(index::scanned_path(files[i])),
    decreases k,
{
    let p = index::scanned_path(files[i]);
    let before = index::scanned_excluded(files, patterns, (k - 1) as nat);
    if i < k - 1 {
        law_kept_out_files_are_recorded(files, patterns, (k - 1) as nat, i);
        let at = choose|at: int| 0 <= at < before.len() && before[at] == p;
        let x = index::scanned_path(files[k - 1]);
        assert(before.push(x)[at] == p);
    } else {
        assert(before.push(p)[before.len() as int] == p);
    }
}

/// A link leads out of a note just where it names one: a note whose links all stay in it, and to
/// which no note links, is an orphan, and one with a link that names a note is none.
pub proof fn law_links_within_a_note(v: IndexView, p: Seq<char>, i: int)
    requires
        v.up_to_date(),
    ensures
        (forall|j: int|
            0 <= j < v.notes[p].links@.len() ==> (#[trigger] v.notes[p].links@[j]).target@.len() == 0)
            && wikilink::paths_at(v.backlinks, p).len() == 0 ==> index::is_orphan(v, p),
        0 <= i < v.notes[p].links@.len() && v.notes[p].links@[i].target@.len() > 0
            ==> !index::is_orphan(v, p),
        wikilink::paths_at(v.backlinks, p).len() > 0 ==> !index::is_orphan(v, p),
{
}

/// What is shown of a match is all of it, and not one of its groups.
pub proof fn law_whole_matches(all: Seq<Seq<Option<(usize, usize)>>>, i: int, m: (usize, usize))
    requires
        0 <= i < all.len(),
        all[i].len() > 0,
        all[i][0] == Some(m),
    ensures
        index::whole_matches(all).len() == all.len(),
        index::whole_matches(all)[i] == m,
{
}

/// What is recorded as kept out are Markdown files that are not hidden, and nothing else.
pub proof fn law_recorded_files(
    files: Seq<ScannedFile>,
    patterns: Seq<Seq<char>>,
    k: nat,
    p: Seq<char>,
)
    requires
        k <= files.len(),
        index::scanned_excluded(files, patterns, k).contains(p),
    ensures
        exists|i: int|
            0 <= i < k && index::scanned_path(#[trigger] files[i]) == p && path::is_markdown(
                files[i].path@,
            ) && fs::shown(Seq::empty(), files[i].path@) && exclude::any_matches(patterns, p),
    decreases k,
{
    if k > 0 {
        let before = index::scanned_excluded(files, patterns, (k - 1) as nat);
        let x = index::scanned_path(files[k - 1]);
        if before.contains(p) {
            law_recorded_files(files, patterns, (k - 1) as nat, p);
        } else {
            let all = index::scanned_excluded(files, patterns, k);
            let at = choose|at: int| 0 <= at < all.len() && all[at] == p;
            if at < before.len() {
                assert(before[at] == p);
            }
            assert(index::scanned_path(files[k - 1]) == p);
        }
    }
}

} // verus!
