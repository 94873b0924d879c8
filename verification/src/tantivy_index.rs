//! What goes into the full-text index and what is asked of it.
use crate::embeddings;
use crate::frontmatter;
use crate::json;
use crate::json::{JsonKind, JsonView};
use crate::models::{NoteMetadata, SearchField};
use crate::text;
use vstd::prelude::*;

verus! {

// ---------------------------------------------------------------------------
// Front matter as text
// ---------------------------------------------------------------------------

/// The keys of an object in ascending order.
pub open spec fn sorted_keys(keys: Set<Seq<char>>) -> Seq<Seq<char>> {
    choose|s: Seq<Seq<char>>| text::ascending(s) && #[trigger] s.to_set() == keys
}

/// The texts in a value: strings, numbers and booleans as they are printed, and the keys of
/// objects, each before what is in its value. Nulls have no text.
pub open spec fn texts_in(v: JsonView) -> Seq<Seq<char>>
    decreases v, 0nat,
{
    match v {
        JsonView::Null => Seq::empty(),
        JsonView::Bool(b) => seq![
            if b {
                "true"@
            } else {
                "false"@
            },
        ],
        JsonView::Number(s) => seq![s],
        JsonView::Str(s) => seq![s],
        JsonView::Array(items) => texts_in_items(items, items.len()),
        JsonView::Object(m) => texts_in_entries(m, sorted_keys(m.dom()), sorted_keys(m.dom()).len()),
    }
}

/// The texts in the first `k` elements of a list.
pub open spec fn texts_in_items(items: Seq<JsonView>, k: nat) -> Seq<Seq<char>>
    decreases items, k,
{
    if k == 0 || k > items.len() {
        Seq::empty()
    } else {
        texts_in_items(items, (k - 1) as nat) + texts_in(items[k - 1])
    }
}

/// The texts in the entries of an object at the first `k` keys.
pub open spec fn texts_in_entries(m: Map<Seq<char>, JsonView>, keys: Seq<Seq<char>>, k: nat) -> Seq<
    Seq<char>,
>
    decreases m, k,
{
    if k == 0 || k > keys.len() {
        Seq::empty()
    } else {
        let key = keys[k - 1];
        let before = texts_in_entries(m, keys, (k - 1) as nat).push(key);
        if m.dom().finite() && m.contains_key(key) {
            before + texts_in(m[key])
        } else {
            before
        }
    }
}

proof fn lemma_contains_last(s: Seq<Seq<char>>, e: Seq<char>)
    requires
        s.len() > 0,
        text::ascending(s),
    ensures
        s.drop_last().contains(e) <==> s.contains(e) && e != s.last(),
{
    let d = s.drop_last();
    if d.contains(e) {
        let i = choose|i: int| 0 <= i < d.len() && d[i] == e;
        assert(s[i] == e);
        assert(text::str_less(s[i], s[s.len() - 1]));
        text::lemma_str_less_total(e, e);
    }
    if s.contains(e) && e != s.last() {
        let i = choose|i: int| 0 <= i < s.len() && s[i] == e;
        assert(d[i] == e);
    }
}

proof fn lemma_ascending_unique(a: Seq<Seq<char>>, b: Seq<Seq<char>>)
    requires
        text::ascending(a),
        text::ascending(b),
        forall|e: Seq<char>| a.contains(e) <==> b.contains(e),
    ensures
        a == b,
    decreases a.len(),
{
    if a.len() == 0 {
        if b.len() > 0 {
            assert(b.contains(b[0]));
            assert(a.contains(b[0]));
        }
        assert(a =~= b);
    } else {
        let x = a.last();
        assert(a.contains(x));
        assert(b.contains(x));
        let y = b.last();
        assert(b.contains(y));
        assert(a.contains(y));
        let i = choose|i: int| 0 <= i < a.len() && a[i] == y;
        let j = choose|j: int| 0 <= j < b.len() && b[j] == x;
        if i < a.len() - 1 {
            assert(text::str_less(a[i], a[a.len() - 1]));
        }
        if j < b.len() - 1 {
            assert(text::str_less(b[j], b[b.len() - 1]));
        }
        text::lemma_str_less_total(x, y);
        text::lemma_str_less_total(x, x);
        assert(x == y);
        assert forall|e: Seq<char>| a.drop_last().contains(e) <==> b.drop_last().contains(e) by {
            lemma_contains_last(a, e);
            lemma_contains_last(b, e);
            assert(a.contains(e) <==> b.contains(e));
        }
        assert(text::ascending(a.drop_last()));
        assert(text::ascending(b.drop_last()));
        lemma_ascending_unique(a.drop_last(), b.drop_last());
        assert(a =~= a.drop_last().push(x));
        assert(b =~= b.drop_last().push(y));
    }
}

/// Keys in ascending order are the sorted keys of their set.
pub proof fn lemma_sorted_keys(s: Seq<Seq<char>>)
    requires
        text::ascending(s),
    ensures
        sorted_keys(s.to_set()) == s,
{
    let t = sorted_keys(s.to_set());
    assert(text::ascending(t) && t.to_set() == s.to_set());
    assert forall|e: Seq<char>| t.contains(e) <==> s.contains(e) by {
        assert(t.to_set().contains(e) <==> t.contains(e));
        assert(s.to_set().contains(e) <==> s.contains(e));
    }
    lemma_ascending_unique(t, s);
}

/// Collects the texts in a value.
fn collect_json_strings(value: &serde_json::Value, out: &mut Vec<String>)
    ensures
        text::strings(final(out)@) == text::strings(old(out)@) + texts_in(json::json_view(*value)),
    decreases json::json_view(*value),
{
    let ghost before = text::strings(out@);
    let ghost v = json::json_view(*value);
    match json::json_kind(value) {
        JsonKind::Null => {
            assert(before + texts_in(v) =~= before);
        },
        JsonKind::Bool(b) => {
            let s = if b {
                "true".to_owned()
            } else {
                "false".to_owned()
            };
            out.push(s);
            assert(text::strings(out@) =~= before + texts_in(v));
        },
        JsonKind::Number => {
            let s = json::json_to_text(value);
            out.push(s);
            assert(text::strings(out@) =~= before + texts_in(v));
        },
        JsonKind::Str(s) => {
            out.push(s.clone());
            assert(text::strings(out@) =~= before + texts_in(v));
        },
        JsonKind::Array(items) => {
            let ghost all = json::json_views(items@);
            assert(before + texts_in_items(all, 0) =~= before);
            let mut k: usize = 0;
            while k < items.len()
                invariant
                    k <= items.len(),
                    all == json::json_views(items@),
                    v == JsonView::Array(all),
                    v == json::json_view(*value),
                    text::strings(out@) == before + texts_in_items(all, k as nat),
                decreases items.len() - k,
            {
                let item = &items[k];
                assert(json::json_view(*item) == all[k as int]);
                assert(decreases_to!(v => v->Array_0));
                assert(decreases_to!(all => all[k as int]));
                collect_json_strings(item, out);
                k = k + 1;
                assert(before + (texts_in_items(all, (k - 1) as nat) + texts_in(all[k - 1]))
                    =~= before + texts_in_items(all, (k - 1) as nat) + texts_in(all[k - 1]));
            }
        },
        JsonKind::Object(m) => {
            let entries = json::json_map_entries(m);
            let ghost map = json::json_map_view(*m);
            let ghost keys = json::entry_keys(entries@);
            proof {
                lemma_sorted_keys(keys);
                vstd::seq_lib::seq_to_set_is_finite(keys);
                assert(before + texts_in_entries(map, keys, 0) =~= before);
            }
            let mut k: usize = 0;
            while k < entries.len()
                invariant
                    k <= entries.len(),
                    keys == json::entry_keys(entries@),
                    keys.to_set() == map.dom(),
                    map.dom().finite(),
                    v == JsonView::Object(map),
                    v == json::json_view(*value),
                    forall|i: int|
                        0 <= i < entries@.len() ==> map[(#[trigger] entries@[i]).0@]
                            == json::json_view(*entries@[i].1),
                    text::strings(out@) == before + texts_in_entries(map, keys, k as nat),
                decreases entries.len() - k,
            {
                let (key, item) = entries[k];
                let ghost at_k = out@;
                assert(keys[k as int] == key@);
                assert(keys.to_set().contains(key@)) by {
                    assert(keys.contains(keys[k as int]));
                }
                out.push(key.clone());
                assert(text::strings(out@) =~= text::strings(at_k).push(key@));
                assert(map[key@] == json::json_view(*item));
                assert(decreases_to!(v => v->Object_0));
                assert(decreases_to!(map => map[key@]));
                collect_json_strings(item, out);
                k = k + 1;
                assert(text::strings(at_k).push(key@) + texts_in(map[key@]) =~= before + (
                texts_in_entries(map, keys, (k - 1) as nat).push(key@) + texts_in(map[key@])));
            }
            assert(keys.len() == entries@.len());
        },
    }
}

/// Flattens front matter into a text of its keys and values, with blanks between them.
pub fn stringify_frontmatter(value: &serde_json::Value) -> (r: String)
    ensures
        r@ == text::join(texts_in(json::json_view(*value)), " "@),
{
    let mut parts: Vec<String> = Vec::new();
    assert(text::strings(parts@) =~= Seq::<Seq<char>>::empty());
    collect_json_strings(value, &mut parts);
    assert(Seq::<Seq<char>>::empty() + texts_in(json::json_view(*value)) =~= texts_in(
        json::json_view(*value),
    ));
    text::join_strings(&parts, " ")
}

// ---------------------------------------------------------------------------
// Documents
// ---------------------------------------------------------------------------

/// A note as the full-text index takes it.
#[derive(Debug)]
pub struct NoteDocument {
    pub path: String,
    pub title: String,
    pub headings: String,
    pub body: String,
    pub frontmatter_text: String,
    /// The tags, each in its nested parts.
    pub tags: Vec<Vec<String>>,
}

/// The parts of tags or words between slashes.
pub open spec fn split_all(ws: Seq<Seq<char>>) -> Seq<Seq<Seq<char>>> {
    ws.map_values(|w: Seq<char>| text::split(w, seq!['/']))
}

/// The parts of tags.
pub open spec fn part_views(v: Seq<Vec<String>>) -> Seq<Seq<Seq<char>>> {
    v.map_values(|parts: Vec<String>| text::strings(parts@))
}

/// Splits a text at its slashes.
fn split_tag(tag: &[char]) -> (r: Vec<String>)
    ensures
        text::strings(r@) == text::split(tag@, seq!['/']),
{
    let slash: [char; 1] = ['/'];
    assert(slash@ =~= seq!['/']);
    let parts = text::split_on(tag, &slash);
    let mut r: Vec<String> = Vec::new();
    let mut k: usize = 0;
    while k < parts.len()
        invariant
            k <= parts.len(),
            r@.len() == k,
            forall|i: int| 0 <= i < k ==> (#[trigger] r@[i])@ == parts@[i]@,
        decreases parts.len() - k,
    {
        r.push(text::from_chars(&parts[k]));
        k = k + 1;
    }
    assert(text::strings(r@) =~= text::texts(parts@));
    r
}

/// Whether a document is that of a note with this path, metadata and content.
pub open spec fn documents(d: NoteDocument, p: Seq<char>, meta: NoteMetadata, content: Seq<char>)
    -> bool {
    &&& d.path@ == p
    &&& d.title@ == meta.title@
    &&& d.headings@ == text::join(embeddings::heading_texts(meta.headings@), " | "@)
    &&& d.body@ == frontmatter::body_of(content)
    &&& d.frontmatter_text@ == match meta.frontmatter {
        Some(fm) => text::join(texts_in(json::json_view(fm)), " "@),
        None => Seq::empty(),
    }
    &&& part_views(d.tags@) == split_all(text::strings(meta.tags@))
}

/// Makes the document of a note from its metadata and raw content.
pub fn build_document(path: &str, meta: &NoteMetadata, content: &str) -> (r: NoteDocument)
    ensures
        documents(r, path@, *meta, content@),
{
    let mut headings: Vec<String> = Vec::new();
    let mut k: usize = 0;
    while k < meta.headings.len()
        invariant
            k <= meta.headings.len(),
            headings@.len() == k,
            forall|i: int| 0 <= i < k ==> (#[trigger] headings@[i])@ == meta.headings@[i].text@,
        decreases meta.headings.len() - k,
    {
        headings.push(meta.headings[k].text.clone());
        k = k + 1;
    }
    assert(text::strings(headings@) =~= embeddings::heading_texts(meta.headings@));
    let frontmatter_text = match &meta.frontmatter {
        Some(fm) => stringify_frontmatter(fm),
        None => {
            let none = String::new();
            assert(none@ =~= Seq::<char>::empty());
            none
        },
    };
    let mut tags: Vec<Vec<String>> = Vec::new();
    let mut i: usize = 0;
    while i < meta.tags.len()
        invariant
            i <= meta.tags.len(),
            tags@.len() == i,
            forall|j: int|
                0 <= j < i ==> text::strings((#[trigger] tags@[j])@) == text::split(
                    meta.tags@[j]@,
                    seq!['/'],
                ),
        decreases meta.tags.len() - i,
    {
        let chars = text::to_chars(&meta.tags[i]);
        tags.push(split_tag(&chars));
        i = i + 1;
    }
    assert(part_views(tags@) =~= split_all(text::strings(meta.tags@)));
    NoteDocument {
        path: path.to_owned(),
        title: meta.title.clone(),
        headings: text::join_strings(&headings, " | "),
        body: frontmatter::get_body(content).to_owned(),
        frontmatter_text,
        tags,
    }
}

// ---------------------------------------------------------------------------
// Queries
// ---------------------------------------------------------------------------

/// How much more a match in the title counts than one in the body.
pub const TITLE_BOOST: u32 = 5;

/// How much more a match in a heading counts than one in the body.
pub const HEADINGS_BOOST: u32 = 3;

/// How much more a matching tag counts than a match in the body.
pub const TAGS_BOOST: u32 = 4;

/// How much more a match in the front matter counts than one in the body.
pub const FRONTMATTER_BOOST: u32 = 2;

/// How much a match in a field counts.
pub open spec fn boost(field: SearchField) -> u32 {
    match field {
        SearchField::Title => TITLE_BOOST,
        SearchField::Headings => HEADINGS_BOOST,
        SearchField::Body => 1,
        SearchField::Tags => TAGS_BOOST,
        SearchField::Frontmatter => FRONTMATTER_BOOST,
    }
}

/// How much a match in a field counts.
pub fn boost_of(field: SearchField) -> (r: u32)
    ensures
        r == boost(field),
{
    match field {
        SearchField::Title => TITLE_BOOST,
        SearchField::Headings => HEADINGS_BOOST,
        SearchField::Body => 1,
        SearchField::Tags => TAGS_BOOST,
        SearchField::Frontmatter => FRONTMATTER_BOOST,
    }
}

/// What is asked of the full-text index.
#[derive(Debug)]
pub enum SearchPlan {
    /// Nothing: the result is empty.
    Nothing,
    /// Look for the query in the text fields, and for any of the tags.
    Look {
        /// The text fields in which to look.
        fields: Vec<SearchField>,
        /// Whether one typing error per word is allowed.
        fuzzy: bool,
        /// The tags to look for, each in its nested parts.
        tags: Vec<Vec<String>>,
    },
}

/// The text fields among the first `k` fields.
pub open spec fn text_fields(fields: Seq<SearchField>, k: nat) -> Seq<SearchField>
    decreases k,
{
    if k == 0 {
        Seq::empty()
    } else if fields[k - 1] == SearchField::Tags {
        text_fields(fields, (k - 1) as nat)
    } else {
        text_fields(fields, (k - 1) as nat).push(fields[k - 1])
    }
}

/// The fields in which is looked if none are named. Tags are looked for through the front
/// matter.
pub open spec fn default_fields() -> Seq<SearchField> {
    seq![SearchField::Title, SearchField::Headings, SearchField::Body, SearchField::Frontmatter]
}

/// The text fields in which is looked, and the tags that are looked for.
pub open spec fn planned(query: Seq<char>, fields: Option<Seq<SearchField>>) -> (
    Seq<SearchField>,
    Seq<Seq<Seq<char>>>,
) {
    match fields {
        Some(fs) => (
            text_fields(fs, fs.len()),
            if fs.contains(SearchField::Tags) {
                split_all(text::words(query))
            } else {
                Seq::empty()
            },
        ),
        None => (default_fields(), Seq::empty()),
    }
}

/// The fields that are named.
pub open spec fn named_fields(fields: Option<&Vec<SearchField>>) -> Option<Seq<SearchField>> {
    match fields {
        Some(fs) => Some(fs@),
        None => None,
    }
}

/// Plans a search with optional fuzzy matching and field filtering. Nothing is looked for if the
/// query is empty, or if neither a text field nor a tag is left.
pub fn plan_search(query: &str, fuzzy: bool, fields: Option<&Vec<SearchField>>) -> (r: SearchPlan)
    ensures
        ({
            let (fs, tags) = planned(query@, named_fields(fields));
            if query@.len() == 0 || (fs.len() == 0 && tags.len() == 0) {
                r is Nothing
            } else {
                match r {
                    SearchPlan::Nothing => false,
                    SearchPlan::Look { fields: looked, fuzzy: f, tags: t } => looked@ == fs && f
                        == fuzzy && part_views(t@) == tags,
                }
            }
        }),
{
    let chars = text::to_chars(query);
    if chars.len() == 0 {
        return SearchPlan::Nothing;
    }
    let mut looked: Vec<SearchField> = Vec::new();
    let mut tags: Vec<Vec<String>> = Vec::new();
    match fields {
        Some(fs) => {
            let mut with_tags = false;
            let mut k: usize = 0;
            while k < fs.len()
                invariant
                    k <= fs.len(),
                    looked@ == text_fields(fs@, k as nat),
                    with_tags == exists|i: int| 0 <= i < k && fs@[i] == SearchField::Tags,
                decreases fs.len() - k,
            {
                let f = fs[k];
                let ghost was = with_tags;
                if f == SearchField::Tags {
                    with_tags = true;
                } else {
                    looked.push(f);
                }
                k = k + 1;
                proof {
                    if was {
                        let i = choose|i: int| 0 <= i < k - 1 && fs@[i] == SearchField::Tags;
                        assert(0 <= i < k && fs@[i] == SearchField::Tags);
                    }
                    assert(fs@[k - 1] == f);
                }
            }
            assert(with_tags == fs@.contains(SearchField::Tags));
            if with_tags {
                let ws = text::split_words(&chars);
                let ghost all = text::texts(ws@);
                let mut j: usize = 0;
                while j < ws.len()
                    invariant
                        j <= ws.len(),
                        all == text::texts(ws@),
                        tags@.len() == j,
                        forall|i: int|
                            0 <= i < j ==> text::strings((#[trigger] tags@[i])@) == text::split(
                                all[i],
                                seq!['/'],
                            ),
                    decreases ws.len() - j,
                {
                    assert(all[j as int] == ws@[j as int]@);
                    tags.push(split_tag(&ws[j]));
                    j = j + 1;
                }
                assert(part_views(tags@) =~= split_all(all));
            } else {
                assert(part_views(tags@) =~= Seq::<Seq<Seq<char>>>::empty());
            }
        },
        None => {
            looked.push(SearchField::Title);
            looked.push(SearchField::Headings);
            looked.push(SearchField::Body);
            looked.push(SearchField::Frontmatter);
            assert(looked@ =~= default_fields());
            assert(part_views(tags@) =~= Seq::<Seq<Seq<char>>>::empty());
        },
    }
    assert(part_views(tags@).len() == tags@.len());
    if looked.len() == 0 && tags.len() == 0 {
        return SearchPlan::Nothing;
    }
    SearchPlan::Look { fields: looked, fuzzy, tags }
}

/// Naming the four text fields is the same as naming none.
pub proof fn law_default_fields(query: Seq<char>)
    ensures
        planned(query, Some(default_fields())) == planned(query, None),
{
    reveal_with_fuel(text_fields, 5);
    let fs = default_fields();
    assert(text_fields(fs, 4) =~= fs);
    assert(!fs.contains(SearchField::Tags));
}

/// The texts in a value are those of its parts: a text or a number is itself, nothing has none,
/// and a list has those of its elements, one after the other.
pub proof fn law_texts_of_values(s: Seq<char>, items: Seq<JsonView>, item: JsonView)
    ensures
        texts_in(JsonView::Null).len() == 0,
        texts_in(JsonView::Bool(true)) == seq![seq!['t', 'r', 'u', 'e']],
        texts_in(JsonView::Bool(false)) == seq![seq!['f', 'a', 'l', 's', 'e']],
        texts_in(JsonView::Str(s)) == seq![s],
        texts_in(JsonView::Number(s)) == seq![s],
        texts_in(JsonView::Array(Seq::empty())).len() == 0,
        texts_in(JsonView::Array(items.push(item))) == texts_in(JsonView::Array(items)) + texts_in(
            item,
        ),
{
    reveal_strlit("true");
    reveal_strlit("false");
    assert("true"@ =~= seq!['t', 'r', 'u', 'e']);
    assert("false"@ =~= seq!['f', 'a', 'l', 's', 'e']);
    reveal_with_fuel(texts_in, 2);
    reveal_with_fuel(texts_in_items, 2);
    lemma_texts_of_prefix(items, item, items.len());
    let more = items.push(item);
    assert(more[items.len() as int] == item);
    assert(texts_in_items(more, more.len()) == texts_in_items(more, items.len()) + texts_in(item));
}

proof fn lemma_texts_of_prefix(items: Seq<JsonView>, item: JsonView, k: nat)
    requires
        k <= items.len(),
    ensures
        texts_in_items(items.push(item), k) == texts_in_items(items, k),
    decreases k,
{
    if k > 0 {
        assert(items.push(item)[k - 1] == items[k - 1]);
        lemma_texts_of_prefix(items, item, (k - 1) as nat);
        assert(texts_in_items(items.push(item), k) == texts_in_items(
            items.push(item),
            (k - 1) as nat,
        ) + texts_in(items.push(item)[k - 1]));
        assert(texts_in_items(items, k) == texts_in_items(items, (k - 1) as nat) + texts_in(
            items[k - 1],
        ));
    }
}

proof fn lemma_texts_of_entries(
    m: Map<Seq<char>, JsonView>,
    keys: Seq<Seq<char>>,
    k: nat,
    x: Seq<char>,
)
    requires
        k <= keys.len(),
        m.dom().finite(),
        forall|i: int| 0 <= i < keys.len() ==> m.contains_key(#[trigger] keys[i]),
    ensures
        texts_in_entries(m, keys, k).contains(x) <==> exists|i: int|
            0 <= i < k && (#[trigger] keys[i] == x || texts_in(m[keys[i]]).contains(x)),
    decreases k,
{
    if k > 0 {
        let n = (k - 1) as nat;
        let key = keys[k - 1];
        let before = texts_in_entries(m, keys, n);
        let more = texts_in(m[key]);
        let all = texts_in_entries(m, keys, k);
        lemma_texts_of_entries(m, keys, n, x);
        assert(all == before.push(key) + more);
        if before.contains(x) {
            let i = choose|i: int| 0 <= i < before.len() && before[i] == x;
            assert(all[i] == x);
        }
        assert(all[before.len() as int] == key);
        if more.contains(x) {
            let i = choose|i: int| 0 <= i < more.len() && more[i] == x;
            assert(all[before.len() + 1 + i] == x);
        }
        if all.contains(x) {
            let i = choose|i: int| 0 <= i < all.len() && all[i] == x;
            if i < before.len() {
                assert(before[i] == x);
            } else if i > before.len() {
                assert(more[i - before.len() - 1] == x);
            }
        }
        if key == x || more.contains(x) {
            assert(keys[k - 1] == x || texts_in(m[keys[k - 1]]).contains(x));
        }
    }
}

/// The texts in an object are its keys and the texts in its values.
pub proof fn law_texts_of_objects(m: Map<Seq<char>, JsonView>, keys: Seq<Seq<char>>, x: Seq<char>)
    requires
        text::ascending(keys),
        keys.to_set() == m.dom(),
    ensures
        texts_in(JsonView::Object(m)).contains(x) <==> exists|key: Seq<char>| #[trigger]
            m.contains_key(key) && (key == x || texts_in(m[key]).contains(x)),
{
    lemma_sorted_keys(keys);
    keys.lemma_cardinality_of_set();
    assert(m.dom().finite());
    assert forall|i: int| 0 <= i < keys.len() implies m.contains_key(#[trigger] keys[i]) by {
        assert(keys.to_set().contains(keys[i]));
    }
    reveal_with_fuel(texts_in, 2);
    lemma_texts_of_entries(m, keys, keys.len(), x);
    let all = texts_in(JsonView::Object(m));
    assert(all == texts_in_entries(m, keys, keys.len()));
    if all.contains(x) {
        let i = choose|i: int|
            0 <= i < keys.len() && (#[trigger] keys[i] == x || texts_in(m[keys[i]]).contains(x));
        assert(m.contains_key(keys[i]));
    }
    if exists|key: Seq<char>| #[trigger]
        m.contains_key(key) && (key == x || texts_in(m[key]).contains(x)) {
        let key = choose|key: Seq<char>| #[trigger]
            m.contains_key(key) && (key == x || texts_in(m[key]).contains(x));
        assert(keys.to_set().contains(key));
        assert(keys.contains(key));
        let i = choose|i: int| 0 <= i < keys.len() && keys[i] == key;
        assert(keys[i] == x || texts_in(m[keys[i]]).contains(x));
    }
}

/// A tag is looked up by its parts, which come together again with `/` between them.
pub proof fn law_parts_of_tags(tags: Seq<Seq<char>>, i: int)
    requires
        0 <= i < tags.len(),
    ensures
        split_all(tags).len() == tags.len(),
        text::join(split_all(tags)[i], seq!['/']) == tags[i],
        forall|j: int|
            0 <= j < split_all(tags)[i].len() ==> !(#[trigger] split_all(tags)[i][j]).contains('/'),
{
    text::lemma_join_split(tags[i], '/');
    text::lemma_split_parts(tags[i], '/');
}

/// The document of a note has its title, the texts of its headings with ` | ` between them, its
/// text without the front matter, the texts of the front matter, and the parts of its tags.
pub proof fn law_document_of_note(
    d: NoteDocument,
    p: Seq<char>,
    meta: NoteMetadata,
    content: Seq<char>,
    i: int,
    x: Seq<char>,
    y: Seq<char>,
)
    requires
        documents(d, p, meta, content),
    ensures
        d.path@ == p,
        d.title@ == meta.title@,
        frontmatter::header_of(content) + d.body@ == content,
        d.tags@.len() == meta.tags@.len(),
        0 <= i < meta.tags@.len() ==> text::join(text::strings(d.tags@[i]@), seq!['/'])
            == meta.tags@[i]@,
        meta.headings@.len() == 0 ==> d.headings@.len() == 0,
        meta.headings@.len() == 1 ==> d.headings@ == meta.headings@[0].text@,
        meta.headings@.len() == 2 ==> d.headings@ == meta.headings@[0].text@ + seq![' ', '|', ' ']
            + meta.headings@[1].text@,
        meta.frontmatter is None ==> d.frontmatter_text@.len() == 0,
        meta.frontmatter matches Some(fm) ==> (json::json_view(fm) is Null
            ==> d.frontmatter_text@.len() == 0),
        meta.frontmatter matches Some(fm) ==> (texts_in(json::json_view(fm)) == seq![x, y]
            ==> d.frontmatter_text@ == x + seq![' '] + y),
{
    frontmatter::law_note_is_header_and_body(content);
    let ts = text::strings(meta.tags@);
    assert(part_views(d.tags@).len() == split_all(ts).len());
    if 0 <= i < meta.tags@.len() {
        law_parts_of_tags(ts, i);
        assert(part_views(d.tags@)[i] == text::strings(d.tags@[i]@));
    }
    reveal_strlit(" | ");
    assert(" | "@ =~= seq![' ', '|', ' ']);
    let hs = embeddings::heading_texts(meta.headings@);
    reveal_with_fuel(text::join, 3);
    if meta.headings@.len() == 2 {
        assert(hs.drop_last() =~= seq![hs[0]]);
        assert(hs.last() == meta.headings@[1].text@);
    }
    reveal_strlit(" ");
    assert(" "@ =~= seq![' ']);
    if let Some(fm) = meta.frontmatter {
        if json::json_view(fm) is Null {
            reveal_with_fuel(texts_in, 2);
            assert(texts_in(JsonView::Null) =~= Seq::<Seq<char>>::empty());
        }
        let ts = texts_in(json::json_view(fm));
        if ts == seq![x, y] {
            assert(ts.drop_last() =~= seq![x]);
            assert(ts.last() == y);
        }
    }
}

/// A word in the title counts most, then one in the tags, the headings and the front matter; the
/// text of a note counts least.
pub proof fn law_boosts()
    ensures
        boost(SearchField::Title) == boost(SearchField::Tags) + 1,
        boost(SearchField::Tags) == boost(SearchField::Headings) + 1,
        boost(SearchField::Headings) == boost(SearchField::Frontmatter) + 1,
        boost(SearchField::Frontmatter) == boost(SearchField::Body) + 1,
        boost(SearchField::Body) == 1,
{
}

proof fn lemma_text_fields(fields: Seq<SearchField>, k: nat, f: SearchField)
    requires
        k <= fields.len(),
    ensures
        text_fields(fields, k).contains(f) <==> f != SearchField::Tags && exists|i: int|
            0 <= i < k && #[trigger] fields[i] == f,
    decreases k,
{
    if k > 0 {
        let n = (k - 1) as nat;
        let before = text_fields(fields, n);
        let all = text_fields(fields, k);
        let x = fields[k - 1];
        lemma_text_fields(fields, n, f);
        if before.contains(f) {
            let i = choose|i: int| 0 <= i < before.len() && before[i] == f;
            assert(all[i] == f);
        }
        if x != SearchField::Tags {
            assert(all == before.push(x));
            assert(all[before.len() as int] == x);
            if all.contains(f) {
                let i = choose|i: int| 0 <= i < all.len() && all[i] == f;
                if i < before.len() {
                    assert(before[i] == f);
                }
            }
        }
    }
}

/// A search looks in the fields that it names, and in the tags, by each word of the query, just
/// where it names them; one that names none looks in all fields but the tags.
pub proof fn law_fields_of_search(query: Seq<char>, fields: Seq<SearchField>, f: SearchField, i: int)
    ensures
        ({
            let (looked, tags) = planned(query, Some(fields));
            &&& looked.contains(f) <==> fields.contains(f) && f != SearchField::Tags
            &&& !fields.contains(SearchField::Tags) ==> tags.len() == 0
            &&& fields.contains(SearchField::Tags) ==> tags.len() == text::words(query).len()
            &&& fields.contains(SearchField::Tags) && 0 <= i < tags.len() ==> text::join(
                tags[i],
                seq!['/'],
            ) == text::words(query)[i]
        }),
        ({
            let (looked, tags) = planned(query, None);
            &&& looked.contains(f) <==> f != SearchField::Tags
            &&& tags.len() == 0
        }),
{
    lemma_text_fields(fields, fields.len(), f);
    let ws = text::words(query);
    if 0 <= i < ws.len() {
        law_parts_of_tags(ws, i);
    }
    let all = default_fields();
    assert(all[0] == SearchField::Title);
    assert(all[1] == SearchField::Headings);
    assert(all[2] == SearchField::Body);
    assert(all[3] == SearchField::Frontmatter);
    if fields.contains(f) {
        let j = choose|j: int| 0 <= j < fields.len() && fields[j] == f;
        assert(fields[j] == f);
    }
}

} // verus!
