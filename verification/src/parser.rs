//! Markdown parsing: heading extraction, code-block detection, structure analysis.
use crate::frontmatter;
use crate::models::{DocumentMap, Heading, HeadingView, LinkView, WikiLink};
use crate::pattern;
use crate::text;
use crate::yaml;
use crate::yaml::{YamlKind, YamlView};
use pulldown_cmark::{Event, Options, Parser, Tag, TagEnd};
use vstd::prelude::*;

verus! {

// ---------------------------------------------------------------------------
// Events
// ---------------------------------------------------------------------------

/// A part of a Markdown document.
pub enum EventView {
    CodeBlockStart,
    CodeBlockEnd,
    MetadataStart,
    MetadataEnd,
    HeadingStart(u8),
    HeadingEnd,
    /// A span of inline code.
    Code(Seq<char>),
    Text(Seq<char>),
    SoftBreak,
    Other,
}

/// An event of `pulldown_cmark`.
#[verifier::external_type_specification]
#[verifier::external_body]
pub struct ExEvent<'a>(pulldown_cmark::Event<'a>);

/// What an event of `pulldown_cmark` says.
pub uninterp spec fn event_view(e: Event<'_>) -> EventView;

/// The events that `Parser::into_offset_iter` of `pulldown_cmark` finds in a text, each with the
/// bytes that it spans, with heading attributes and YAML metadata blocks switched on or off.
pub uninterp spec fn events_of(
    text: Seq<char>,
    heading_attributes: bool,
    metadata_blocks: bool,
) -> Seq<(EventView, usize, usize)>;

/// An event of `pulldown_cmark` opened by its variant.
pub enum MarkdownEvent {
    CodeBlockStart,
    CodeBlockEnd,
    MetadataStart,
    MetadataEnd,
    HeadingStart(u8),
    HeadingEnd,
    Code(String),
    Text(String),
    SoftBreak,
    Other,
}

impl View for MarkdownEvent {
    type V = EventView;

    open spec fn view(&self) -> EventView {
        match *self {
            MarkdownEvent::CodeBlockStart => EventView::CodeBlockStart,
            MarkdownEvent::CodeBlockEnd => EventView::CodeBlockEnd,
            MarkdownEvent::MetadataStart => EventView::MetadataStart,
            MarkdownEvent::MetadataEnd => EventView::MetadataEnd,
            MarkdownEvent::HeadingStart(level) => EventView::HeadingStart(level),
            MarkdownEvent::HeadingEnd => EventView::HeadingEnd,
            MarkdownEvent::Code(t) => EventView::Code(t@),
            MarkdownEvent::Text(t) => EventView::Text(t@),
            MarkdownEvent::SoftBreak => EventView::SoftBreak,
            MarkdownEvent::Other => EventView::Other,
        }
    }
}

/// `Parser::new_ext` and `Parser::into_offset_iter` of `pulldown_cmark`: the events of a text,
/// which depend on the text and the options alone.
#[verifier::external_body]
fn parse_markdown<'a>(content: &'a str, heading_attributes: bool, metadata_blocks: bool) -> (r: Vec<
    (Event<'a>, usize, usize),
>)
    ensures
        r@.map_values(|e: (Event<'a>, usize, usize)| (event_view(e.0), e.1, e.2))
            == events_of(content@, heading_attributes, metadata_blocks),
{
    let mut options = Options::empty();
    options.set(Options::ENABLE_HEADING_ATTRIBUTES, heading_attributes);
    options.set(Options::ENABLE_YAML_STYLE_METADATA_BLOCKS, metadata_blocks);
    Parser::new_ext(content, options)
        .into_offset_iter()
        .map(|(e, range)| (e, range.start, range.end))
        .collect()
}

/// The variants of `pulldown_cmark::Event`: which one an event is, with what it holds.
#[verifier::external_body]
fn open_event(e: &Event<'_>) -> (r: MarkdownEvent)
    ensures
        r@ == event_view(*e),
{
    match e {
        Event::Start(Tag::CodeBlock(_)) => MarkdownEvent::CodeBlockStart,
        Event::End(TagEnd::CodeBlock) => MarkdownEvent::CodeBlockEnd,
        Event::Start(Tag::MetadataBlock(_)) => MarkdownEvent::MetadataStart,
        Event::End(TagEnd::MetadataBlock(_)) => MarkdownEvent::MetadataEnd,
        Event::Start(Tag::Heading { level, .. }) => MarkdownEvent::HeadingStart(*level as u8),
        Event::End(TagEnd::Heading(_)) => MarkdownEvent::HeadingEnd,
        Event::Code(t) => MarkdownEvent::Code(t.to_string()),
        Event::Text(t) => MarkdownEvent::Text(t.to_string()),
        Event::SoftBreak => MarkdownEvent::SoftBreak,
        _ => MarkdownEvent::Other,
    }
}

/// The events of a note.
pub open spec fn note_events(content: Seq<char>) -> Seq<(EventView, usize, usize)> {
    events_of(content, true, true)
}

/// An event with the bytes that it spans.
pub struct SpannedEvent {
    pub event: MarkdownEvent,
    pub start: usize,
    pub end: usize,
}

/// The mathematical form of events.
pub open spec fn event_views(v: Seq<SpannedEvent>) -> Seq<(EventView, usize, usize)> {
    v.map_values(|e: SpannedEvent| (e.event@, e.start, e.end))
}

/// The events of a note.
pub fn markdown_events(content: &str) -> (r: Vec<SpannedEvent>)
    ensures
        event_views(r@) == note_events(content@),
{
    let raw = parse_markdown(content, true, true);
    let ghost all = note_events(content@);
    let mut r: Vec<SpannedEvent> = Vec::new();
    let mut k: usize = 0;
    while k < raw.len()
        invariant
            k <= raw.len(),
            raw@.map_values(
                |e: (Event<'_>, usize, usize)| (event_view(e.0), e.1, e.2),
            ) == all,
            event_views(r@) =~= all.take(k as int),
        decreases raw.len() - k,
    {
        let ghost before = r@;
        let e = SpannedEvent { event: open_event(&raw[k].0), start: raw[k].1, end: raw[k].2 };
        assert(all[k as int] == (event_view(raw@[k as int].0), raw@[k as int].1, raw@[k as int].2));
        r.push(e);
        assert(event_views(r@) =~= event_views(before).push((e.event@, e.start, e.end)));
        k = k + 1;
    }
    assert(all.take(k as int) =~= all);
    r
}

// ---------------------------------------------------------------------------
// Code and metadata
// ---------------------------------------------------------------------------

/// The code blocks, metadata blocks and spans of inline code among the first `k` events, and
/// the start of a block that is still open.
pub open spec fn code_ranges(events: Seq<(EventView, usize, usize)>, k: nat) -> (
    Seq<(usize, usize)>,
    Option<usize>,
)
    decreases k,
{
    if k == 0 {
        (Seq::empty(), None)
    } else {
        let (ranges, open) = code_ranges(events, (k - 1) as nat);
        let (event, start, end) = events[k - 1];
        match event {
            EventView::CodeBlockStart | EventView::MetadataStart => (ranges, Some(start)),
            EventView::CodeBlockEnd | EventView::MetadataEnd => match open {
                Some(from) => (ranges.push((from, end)), None),
                None => (ranges, None),
            },
            EventView::Code(_) => (ranges.push((start, end)), open),
            _ => (ranges, open),
        }
    }
}

/// Whether a byte lies in one of some ranges.
pub open spec fn in_ranges(offset: usize, ranges: Seq<(usize, usize)>) -> bool {
    exists|i: int| 0 <= i < ranges.len() && (#[trigger] ranges[i]).0 <= offset < ranges[i].1
}

/// The ranges of a note in which nothing is prose.
pub open spec fn excluded_ranges(content: Seq<char>) -> Seq<(usize, usize)> {
    code_ranges(note_events(content), note_events(content).len()).0
}

/// Number of line feeds before a byte.
pub open spec fn line_at(content: Seq<char>, offset: int) -> nat {
    line_feeds(content.take(text::chars_before(content, offset) as int))
}

/// Number of line feeds in a text.
pub open spec fn line_feeds(s: Seq<char>) -> nat
    decreases s.len(),
{
    if s.len() == 0 {
        0
    } else {
        line_feeds(s.drop_last()) + if s.last() == '\n' {
            1nat
        } else {
            0nat
        }
    }
}

pub proof fn lemma_line_feeds(s: Seq<char>)
    ensures
        line_feeds(s) <= s.len(),
    decreases s.len(),
{
    if s.len() > 0 {
        lemma_line_feeds(s.drop_last());
    }
}

/// Byte ranges of fenced and indented code blocks, inline code spans, and YAML metadata blocks
/// among events.
pub fn ranges_of_events(events: &Vec<SpannedEvent>) -> (r: Vec<(usize, usize)>)
    ensures
        r@ == code_ranges(event_views(events@), events.len() as nat).0,
{
    let ghost all = event_views(events@);
    let mut ranges: Vec<(usize, usize)> = Vec::new();
    let mut open: Option<usize> = None;
    let mut k: usize = 0;
    while k < events.len()
        invariant
            k <= events.len(),
            all == event_views(events@),
            code_ranges(all, k as nat) == (ranges@, open),
        decreases events.len() - k,
    {
        let e = &events[k];
        assert(all[k as int] == (e.event@, e.start, e.end));
        match e.event {
            MarkdownEvent::CodeBlockStart | MarkdownEvent::MetadataStart => {
                open = Some(e.start);
            },
            MarkdownEvent::CodeBlockEnd | MarkdownEvent::MetadataEnd => {
                if let Some(from) = open {
                    ranges.push((from, e.end));
                }
                open = None;
            },
            MarkdownEvent::Code(_) => {
                ranges.push((e.start, e.end));
            },
            _ => {},
        }
        k = k + 1;
    }
    ranges
}

/// Byte ranges of fenced and indented code blocks, inline code spans, and YAML metadata blocks.
fn code_block_ranges(content: &str) -> (r: Vec<(usize, usize)>)
    ensures
        r@ == excluded_ranges(content@),
{
    let events = markdown_events(content);
    assert(event_views(events@).len() == events@.len());
    ranges_of_events(&events)
}

/// Checks if a byte lies in one of some ranges.
pub fn is_in_code_block(offset: usize, ranges: &Vec<(usize, usize)>) -> (r: bool)
    ensures
        r == in_ranges(offset, ranges@),
{
    let mut i: usize = 0;
    while i < ranges.len()
        invariant
            i <= ranges.len(),
            forall|j: int|
                0 <= j < i ==> !((#[trigger] ranges@[j]).0 <= offset < ranges@[j].1),
        decreases ranges.len() - i,
    {
        if ranges[i].0 <= offset && offset < ranges[i].1 {
            assert(ranges@[i as int].0 <= offset < ranges@[i as int].1);
            return true;
        }
        i = i + 1;
    }
    false
}

/// The line, from 0, on which a byte lies.
pub fn byte_offset_to_line(content: &[char], offset: usize) -> (r: usize)
    ensures
        r == line_at(content@, offset as int),
{
    let n = text::char_index(content, offset);
    let mut count: usize = 0;
    let mut i: usize = 0;
    while i < n
        invariant
            i <= n <= content.len(),
            count == line_feeds(content@.take(i as int)),
            count <= i,
        decreases n - i,
    {
        assert(content@.take(i as int + 1).drop_last() =~= content@.take(i as int));
        if content[i] == '\n' {
            count = count + 1;
        }
        i = i + 1;
    }
    count
}

// ---------------------------------------------------------------------------
// Headings
// ---------------------------------------------------------------------------

/// A heading with the byte at which it starts.
pub struct HeadingPos {
    pub level: u8,
    pub text: String,
    pub line: usize,
    pub offset: usize,
}

/// The mathematical form of a [`HeadingPos`].
pub struct HeadingPosView {
    pub level: u8,
    pub text: Seq<char>,
    pub line: nat,
    pub offset: usize,
}

impl View for HeadingPos {
    type V = HeadingPosView;

    open spec fn view(&self) -> HeadingPosView {
        HeadingPosView {
            level: self.level,
            text: self.text@,
            line: self.line as nat,
            offset: self.offset,
        }
    }
}

/// The mathematical form of headings.
pub open spec fn heading_pos_views(v: Seq<HeadingPos>) -> Seq<HeadingPosView> {
    v.map_values(|h: HeadingPos| h@)
}

/// The headings that the first `k` events complete, and the level, text and start of one that is
/// still open. Text and inline code make the text of a heading, a line break in it is a space.
pub open spec fn headings_of(
    content: Seq<char>,
    events: Seq<(EventView, usize, usize)>,
    k: nat,
) -> (Seq<HeadingPosView>, Option<(u8, Seq<char>, usize)>)
    decreases k,
{
    if k == 0 {
        (Seq::empty(), None)
    } else {
        let (done, open) = headings_of(content, events, (k - 1) as nat);
        let (event, start, end) = events[k - 1];
        match (event, open) {
            (EventView::HeadingStart(level), _) => (done, Some((level, Seq::empty(), start))),
            (EventView::Text(t), Some((level, text, offset))) => (
                done,
                Some((level, text + t, offset)),
            ),
            (EventView::Code(t), Some((level, text, offset))) => (
                done,
                Some((level, text + t, offset)),
            ),
            (EventView::SoftBreak, Some((level, text, offset))) => (
                done,
                Some((level, text.push(' '), offset)),
            ),
            (EventView::HeadingEnd, Some((level, text, offset))) => (
                done.push(
                    HeadingPosView { level, text, line: line_at(content, offset as int), offset },
                ),
                None,
            ),
            _ => (done, open),
        }
    }
}

/// The headings of a note.
pub open spec fn note_headings(content: Seq<char>) -> Seq<HeadingPosView> {
    headings_of(content, note_events(content), note_events(content).len()).0
}

/// Collects the headings that events make up.
pub fn headings_of_events(content: &str, events: &Vec<SpannedEvent>) -> (r: Vec<HeadingPos>)
    ensures
        heading_pos_views(r@) == headings_of(
            content@,
            event_views(events@),
            events.len() as nat,
        ).0,
{
    let chars = text::to_chars(content);
    let ghost all = event_views(events@);
    let mut headings: Vec<HeadingPos> = Vec::new();
    let mut in_heading: bool = false;
    let mut level: u8 = 0;
    let mut text = String::new();
    let mut offset: usize = 0;
    let mut k: usize = 0;
    while k < events.len()
        invariant
            k <= events.len(),
            chars@ == content@,
            all == event_views(events@),
            headings_of(content@, all, k as nat).0 == heading_pos_views(headings@),
            headings_of(content@, all, k as nat).1 == if in_heading {
                Some((level, text@, offset))
            } else {
                None
            },
        decreases events.len() - k,
    {
        let e = &events[k];
        assert(all[k as int] == (e.event@, e.start, e.end));
        match &e.event {
            MarkdownEvent::HeadingStart(l) => {
                in_heading = true;
                level = *l;
                text = String::new();
                offset = e.start;
            },
            MarkdownEvent::Text(t) => {
                if in_heading {
                    text.push_str(t);
                }
            },
            MarkdownEvent::Code(t) => {
                if in_heading {
                    text.push_str(t);
                }
            },
            MarkdownEvent::SoftBreak => {
                if in_heading {
                    text.push(' ');
                }
            },
            MarkdownEvent::HeadingEnd => {
                if in_heading {
                    let ghost before = headings@;
                    let h = HeadingPos {
                        level,
                        text: text.clone(),
                        line: byte_offset_to_line(&chars, offset),
                        offset,
                    };
                    headings.push(h);
                    assert(heading_pos_views(headings@) =~= heading_pos_views(before).push(h@));
                    in_heading = false;
                }
            },
            _ => {},
        }
        k = k + 1;
    }
    headings
}

/// The headings of a note with their lines and bytes.
fn extract_headings_with_offsets(content: &str) -> (r: Vec<HeadingPos>)
    ensures
        heading_pos_views(r@) == note_headings(content@),
{
    let events = markdown_events(content);
    assert(event_views(events@).len() == events@.len());
    headings_of_events(content, &events)
}

/// A heading without its place in bytes.
pub open spec fn plain_heading(h: HeadingPosView) -> HeadingView {
    HeadingView { level: h.level, text: h.text, line: h.line }
}

/// Extracts all headings from Markdown content.
pub fn extract_headings(content: &str) -> (r: Vec<Heading>)
    ensures
        r@.map_values(|h: Heading| h@) == note_headings(content@).map_values(
            |h: HeadingPosView| plain_heading(h),
        ),
{
    let found = extract_headings_with_offsets(content);
    let ghost all = note_headings(content@);
    let mut r: Vec<Heading> = Vec::new();
    let mut k: usize = 0;
    while k < found.len()
        invariant
            k <= found.len(),
            all == heading_pos_views(found@),
            r@.len() == k,
            forall|i: int| 0 <= i < k ==> (#[trigger] r@[i])@ == plain_heading(all[i]),
        decreases found.len() - k,
    {
        let h = &found[k];
        assert(all[k as int] == h@);
        r.push(Heading { level: h.level, text: h.text.clone(), line: h.line });
        k = k + 1;
    }
    assert(r@.map_values(|h: Heading| h@) =~= all.map_values(
        |h: HeadingPosView| plain_heading(h),
    ));
    r
}

// ---------------------------------------------------------------------------
// Tags, links and block references
// ---------------------------------------------------------------------------

/// The pattern of a link in double brackets.
pub open spec fn link_pattern() -> Seq<char> {
    "\\[\\[([^\\[\\]]+)\\]\\]"@
}

/// The pattern of a tag after white space or at the start of a line; it starts with a letter.
pub open spec fn tag_pattern() -> Seq<char> {
    "(?m)(?:^|[ \\t])#([a-zA-Z][\\w/-]*)"@
}

/// The pattern of a block reference at the end of a line.
pub open spec fn block_pattern() -> Seq<char> {
    "(?m)\\^([a-zA-Z0-9-]+)\\s*$"@
}

/// The texts of the first group of the first `k` matches, where it starts outside the excluded
/// ranges.
pub open spec fn prose_groups(
    content: Seq<char>,
    found: Seq<Seq<Option<(usize, usize)>>>,
    excluded: Seq<(usize, usize)>,
    k: nat,
) -> Seq<Seq<char>>
    decreases k,
{
    if k == 0 {
        Seq::empty()
    } else {
        let before = prose_groups(content, found, excluded, (k - 1) as nat);
        if found[k - 1].len() > 1 {
            match found[k - 1][1] {
                Some((a, b)) => if in_ranges(a, excluded) {
                    before
                } else {
                    before.push(text::byte_slice(content, a as int, b as int))
                },
                None => before,
            }
        } else {
            before
        }
    }
}

/// Collects the first groups of matches that start outside some ranges.
pub fn collect_prose_groups(
    content: &str,
    found: &Vec<Vec<Option<(usize, usize)>>>,
    excluded: &Vec<(usize, usize)>,
) -> (r: Vec<String>)
    requires
        pattern::spans_fit(pattern::spans(found@), text::byte_len(content@)),
    ensures
        text::strings(r@) == prose_groups(
            content@,
            pattern::spans(found@),
            excluded@,
            found.len() as nat,
        ),
{
    let chars = text::to_chars(content);
    let ghost all = pattern::spans(found@);
    let mut r: Vec<String> = Vec::new();
    assert(text::strings(r@) =~= Seq::<Seq<char>>::empty());
    let mut k: usize = 0;
    while k < found.len()
        invariant
            k <= found.len(),
            chars@ == content@,
            all == pattern::spans(found@),
            pattern::spans_fit(all, text::byte_len(content@)),
            text::strings(r@) == prose_groups(content@, all, excluded@, k as nat),
        decreases found.len() - k,
    {
        let groups = &found[k];
        assert(all[k as int] == groups@);
        if groups.len() > 1 {
            if let Some((a, b)) = groups[1] {
                if !is_in_code_block(a, excluded) {
                    let ghost before = r@;
                    proof {
                        assert(all[k as int][1] == Some((a, b)));
                        text::lemma_chars_before(content@, a as int, b as int);
                    }
                    let i = text::char_index(&chars, a);
                    let j = text::char_index(&chars, b);
                    let item = text::from_chars(vstd::slice::slice_subrange(&chars, i, j));
                    r.push(item);
                    assert(text::strings(r@) =~= text::strings(before).push(item@));
                }
            }
        }
        k = k + 1;
    }
    r
}

/// The groups of a pattern in the prose of a note.
pub open spec fn prose_matches(content: Seq<char>, regex: Seq<char>) -> Seq<Seq<char>> {
    let found = pattern::matches_of(regex, content);
    prose_groups(content, found, excluded_ranges(content), found.len())
}

/// The tags in the text of a note, in ascending order without repetitions.
pub open spec fn inline_tags(content: Seq<char>) -> Seq<Seq<char>> {
    let all = prose_matches(content, tag_pattern());
    text::sorted_set(all, all.len())
}

/// Extracts all inline tags (`#tag`, `#nested/tag`) from content.
///
/// Front matter, code blocks and inline code spans are skipped. The tags come sorted and unique.
pub fn extract_inline_tags(content: &str) -> (r: Vec<String>)
    ensures
        text::strings(r@) == inline_tags(content@),
{
    let excluded = code_block_ranges(content);
    let found = pattern::find_matches("(?m)(?:^|[ \\t])#([a-zA-Z][\\w/-]*)", content);
    let tags = collect_prose_groups(content, &found, &excluded);
    assert(pattern::spans(found@).len() == found@.len());
    assert(text::strings(tags@).len() == tags@.len());
    text::sort_unique(&tags)
}

/// The block references of a note.
pub open spec fn note_block_refs(content: Seq<char>) -> Seq<Seq<char>> {
    prose_matches(content, block_pattern())
}

/// Extracts all block reference IDs (`^blockid` at the end of a line or standalone), skipping
/// code blocks and inline code spans.
pub fn extract_block_refs(content: &str) -> (r: Vec<String>)
    ensures
        text::strings(r@) == note_block_refs(content@),
{
    let excluded = code_block_ranges(content);
    let found = pattern::find_matches("(?m)\\^([a-zA-Z0-9-]+)\\s*$", content);
    assert(pattern::spans(found@).len() == found@.len());
    collect_prose_groups(content, &found, &excluded)
}

/// A text before and after the first occurrence of a character.
pub open spec fn cut_at(s: Seq<char>, c: char) -> (Seq<char>, Option<Seq<char>>) {
    match text::find(s, seq![c]) {
        Some(i) => (s.take(i as int), Some(s.skip(i as int + 1))),
        None => (s, None),
    }
}

/// What the inside of a link says: the alias after `|`, the part of the note after `#`, which is
/// a block where it starts with `^`, and the target before them.
pub open spec fn link_of(raw: Seq<char>, inner: Seq<char>, line: nat) -> LinkView {
    let (link, alias) = cut_at(inner, '|');
    let (target, fragment) = cut_at(link, '#');
    LinkView {
        raw,
        target,
        heading: match fragment {
            Some(f) => if f.len() > 0 && f[0] == '^' {
                None
            } else {
                Some(f)
            },
            None => None,
        },
        block_ref: match fragment {
            Some(f) => if f.len() > 0 && f[0] == '^' {
                Some(f.skip(1))
            } else {
                None
            },
            None => None,
        },
        alias: match alias {
            Some(a) => if a.len() > 0 {
                Some(a)
            } else {
                None
            },
            None => None,
        },
        line,
    }
}

/// Computes [`cut_at`].
fn cut(s: &[char], c: char) -> (r: (&[char], Option<&[char]>))
    ensures
        r.0@ == cut_at(s@, c).0,
        match r.1 {
            Some(t) => cut_at(s@, c).1 == Some(t@),
            None => cut_at(s@, c).1 is None,
        },
{
    let sep: [char; 1] = [c];
    assert(sep@ =~= seq![c]);
    match text::find_in(s, &sep) {
        Some(i) => {
            let n = s.len();
            let head = vstd::slice::slice_subrange(s, 0, i);
            let tail = vstd::slice::slice_subrange(s, i + 1, n);
            assert(head@ =~= s@.take(i as int));
            assert(tail@ =~= s@.skip(i as int + 1));
            (head, Some(tail))
        },
        None => (s, None),
    }
}

/// Parses the inner text of a `[[...]]` wikilink into a [`WikiLink`].
pub fn parse_wikilink_inner(raw: &[char], inner: &[char], line: usize) -> (r: WikiLink)
    ensures
        r@ == link_of(raw@, inner@, line as nat),
{
    let (link, alias_part) = cut(inner, '|');
    let (target, fragment) = cut(link, '#');
    let alias = match alias_part {
        Some(a) => if a.len() > 0 {
            Some(text::from_chars(a))
        } else {
            None
        },
        None => None,
    };
    let mut heading: Option<String> = None;
    let mut block_ref: Option<String> = None;
    if let Some(f) = fragment {
        if f.len() > 0 && f[0] == '^' {
            let id = vstd::slice::slice_subrange(f, 1, f.len());
            assert(id@ =~= f@.skip(1));
            block_ref = Some(text::from_chars(id));
        } else {
            heading = Some(text::from_chars(f));
        }
    }
    WikiLink {
        raw: text::from_chars(raw),
        target: text::from_chars(target),
        heading,
        block_ref,
        alias,
        line,
    }
}

/// The links of the first `k` matches that start outside the excluded ranges.
pub open spec fn prose_links(
    content: Seq<char>,
    found: Seq<Seq<Option<(usize, usize)>>>,
    excluded: Seq<(usize, usize)>,
    k: nat,
) -> Seq<LinkView>
    decreases k,
{
    if k == 0 {
        Seq::empty()
    } else {
        let before = prose_links(content, found, excluded, (k - 1) as nat);
        if found[k - 1].len() > 1 {
            match (found[k - 1][0], found[k - 1][1]) {
                (Some((a, b)), Some((c, d))) => if in_ranges(a, excluded) {
                    before
                } else {
                    before.push(
                        link_of(
                            text::byte_slice(content, a as int, b as int),
                            text::byte_slice(content, c as int, d as int),
                            line_at(content, a as int),
                        ),
                    )
                },
                _ => before,
            }
        } else {
            before
        }
    }
}

/// The mathematical form of links.
pub open spec fn link_views(v: Seq<WikiLink>) -> Seq<LinkView> {
    v.map_values(|l: WikiLink| l@)
}

/// Collects the links of matches that start outside some ranges.
pub fn collect_prose_links(
    content: &str,
    found: &Vec<Vec<Option<(usize, usize)>>>,
    excluded: &Vec<(usize, usize)>,
) -> (r: Vec<WikiLink>)
    requires
        pattern::spans_fit(pattern::spans(found@), text::byte_len(content@)),
    ensures
        link_views(r@) == prose_links(
            content@,
            pattern::spans(found@),
            excluded@,
            found.len() as nat,
        ),
{
    let chars = text::to_chars(content);
    let ghost all = pattern::spans(found@);
    let mut r: Vec<WikiLink> = Vec::new();
    assert(link_views(r@) =~= Seq::<LinkView>::empty());
    let mut k: usize = 0;
    while k < found.len()
        invariant
            k <= found.len(),
            chars@ == content@,
            all == pattern::spans(found@),
            pattern::spans_fit(all, text::byte_len(content@)),
            link_views(r@) == prose_links(content@, all, excluded@, k as nat),
        decreases found.len() - k,
    {
        let groups = &found[k];
        assert(all[k as int] == groups@);
        if groups.len() > 1 {
            if let Some((a, b)) = groups[0] {
                if let Some((c, d)) = groups[1] {
                    if !is_in_code_block(a, excluded) {
                        let ghost before = r@;
                        proof {
                            assert(all[k as int][0] == Some((a, b)));
                            assert(all[k as int][1] == Some((c, d)));
                            text::lemma_chars_before(content@, a as int, b as int);
                            text::lemma_chars_before(content@, c as int, d as int);
                        }
                        let i = text::char_index(&chars, a);
                        let j = text::char_index(&chars, b);
                        let m = text::char_index(&chars, c);
                        let n = text::char_index(&chars, d);
                        let raw = vstd::slice::slice_subrange(&chars, i, j);
                        let inner = vstd::slice::slice_subrange(&chars, m, n);
                        let link = parse_wikilink_inner(
                            raw,
                            inner,
                            byte_offset_to_line(&chars, a),
                        );
                        r.push(link);
                        assert(link_views(r@) =~= link_views(before).push(link@));
                    }
                }
            }
        }
        k = k + 1;
    }
    r
}

/// The links of a note.
pub open spec fn note_links(content: Seq<char>) -> Seq<LinkView> {
    let found = pattern::matches_of(link_pattern(), content);
    prose_links(content, found, excluded_ranges(content), found.len())
}

/// Extracts all wikilinks from content.
///
/// Handles `[[note]]`, `[[note|alias]]`, `[[note#heading]]`, `[[note#^blockid]]`, `[[#heading]]`
/// (self-reference), etc. Skips wikilinks inside code.
pub fn extract_wikilinks(content: &str) -> (r: Vec<WikiLink>)
    ensures
        link_views(r@) == note_links(content@),
{
    let excluded = code_block_ranges(content);
    let found = pattern::find_matches("\\[\\[([^\\[\\]]+)\\]\\]", content);
    assert(pattern::spans(found@).len() == found@.len());
    collect_prose_links(content, &found, &excluded)
}

// ---------------------------------------------------------------------------
// Document map
// ---------------------------------------------------------------------------

/// The names of the top-level fields of the front matter.
pub open spec fn frontmatter_keys(content: Seq<char>) -> Seq<Seq<char>> {
    match frontmatter::raw_yaml(content) {
        Some(yaml) => if text::trim(yaml).len() == 0 {
            Seq::empty()
        } else {
            match yaml::yaml_value_of(yaml) {
                Ok(YamlView::Mapping(entries)) => yaml::string_keys(entries, entries.len()),
                _ => Seq::empty(),
            }
        },
        None => Seq::empty(),
    }
}

/// A heading as it is written.
pub open spec fn heading_line(h: HeadingPosView) -> Seq<char> {
    Seq::new(h.level as nat, |i: int| '#') + seq![' '] + h.text
}

/// Collects the keys of a mapping that are strings.
fn collect_string_keys(m: serde_yaml::Mapping) -> (r: Vec<String>)
    ensures
        text::strings(r@) == yaml::string_keys(
            yaml::mapping_view(m),
            yaml::mapping_view(m).len(),
        ),
{
    let ghost entries = yaml::mapping_view(m);
    let mut r: Vec<String> = Vec::new();
    assert(text::strings(r@) =~= Seq::<Seq<char>>::empty());
    let mut left = yaml::mapping_entries(m);
    let ghost all = left@;
    let total = left.len();
    let mut k: usize = 0;
    while k < total
        invariant
            k <= total,
            total == entries.len(),
            all.len() == total,
            left@ =~= all.skip(k as int),
            forall|i: int|
                0 <= i < total ==> entries[i] == (
                    yaml::yaml_view((#[trigger] all[i]).0),
                    yaml::yaml_view(all[i].1),
                ),
            text::strings(r@) == yaml::string_keys(entries, k as nat),
        decreases total - k,
    {
        let ghost before = r@;
        let (key, _) = left.remove(0);
        assert(key == all[k as int].0);
        match yaml::yaml_kind(key) {
            YamlKind::Str(s) => {
                r.push(s);
                assert(text::strings(r@) =~= text::strings(before).push(s@));
            },
            _ => {},
        }
        k = k + 1;
    }
    r
}

/// Extracts the top-level keys of the front matter.
fn extract_frontmatter_keys(content: &str) -> (r: Vec<String>)
    ensures
        text::strings(r@) == frontmatter_keys(content@),
{
    let none: Vec<String> = Vec::new();
    assert(text::strings(none@) =~= Seq::<Seq<char>>::empty());
    let yaml = match frontmatter::extract_raw_frontmatter(content) {
        Some((yaml, _)) => yaml,
        None => {
            return none;
        },
    };
    let chars = text::to_chars(yaml);
    if text::trimmed(&chars).len() == 0 {
        return none;
    }
    match yaml::parse_value(yaml) {
        Ok(v) => match yaml::yaml_kind(v) {
            YamlKind::Mapping(m) => collect_string_keys(m),
            _ => none,
        },
        Err(_) => none,
    }
}

/// Builds a [`DocumentMap`] for a note (headings, block refs, front matter fields).
pub fn build_document_map(content: &str) -> (r: DocumentMap)
    ensures
        text::strings(r.headings@) == note_headings(content@).map_values(
            |h: HeadingPosView| heading_line(h),
        ),
        text::strings(r.block_refs@) == note_block_refs(content@),
        text::strings(r.frontmatter_fields@) == frontmatter_keys(content@),
{
    let found = extract_headings_with_offsets(content);
    let ghost all = note_headings(content@);
    let mut headings: Vec<String> = Vec::new();
    let mut k: usize = 0;
    while k < found.len()
        invariant
            k <= found.len(),
            all == heading_pos_views(found@),
            headings@.len() == k,
            forall|i: int| 0 <= i < k ==> (#[trigger] headings@[i])@ == heading_line(all[i]),
        decreases found.len() - k,
    {
        let h = &found[k];
        assert(all[k as int] == h@);
        let mut line: Vec<char> = Vec::new();
        let mut n: u8 = 0;
        while n < h.level
            invariant
                n <= h.level,
                line@ =~= Seq::new(n as nat, |i: int| '#'),
            decreases h.level - n,
        {
            line.push('#');
            n = n + 1;
        }
        line.push(' ');
        text::append_chars(&mut line, &text::to_chars(&h.text));
        assert(line@ =~= heading_line(all[k as int]));
        headings.push(text::from_chars(&line));
        k = k + 1;
    }
    assert(text::strings(headings@) =~= all.map_values(|h: HeadingPosView| heading_line(h)));
    DocumentMap {
        headings,
        block_refs: extract_block_refs(content),
        frontmatter_fields: extract_frontmatter_keys(content),
    }
}

// ---------------------------------------------------------------------------
// Ranges
// ---------------------------------------------------------------------------

/// The parts of a text between the occurrences of a separator; with an empty separator, each
/// character, with an empty part at either end.
pub open spec fn parts_of(s: Seq<char>, sep: Seq<char>) -> Seq<Seq<char>> {
    if sep.len() == 0 {
        seq![Seq::empty()] + s.map_values(|c: char| seq![c]) + seq![Seq::empty()]
    } else {
        text::split(s, sep)
    }
}

/// Place, from `i` on, of the first heading that starts at the bytes `from..to` with this text
/// in any ASCII case; the number of headings if there is none.
pub open spec fn heading_from(
    hs: Seq<HeadingPosView>,
    i: nat,
    from: nat,
    to: nat,
    name: Seq<char>,
) -> nat
    decreases hs.len() - i,
{
    if i >= hs.len() {
        hs.len()
    } else if from <= hs[i as int].offset < to && text::eq_ignore_ascii_case(
        hs[i as int].text,
        name,
    ) {
        i
    } else {
        heading_from(hs, i + 1, from, to, name)
    }
}

/// The byte at which a section of some level ends: that of the first heading, from `i` on, of
/// the same or a higher level that starts before `to`, else `to`.
pub open spec fn section_end(hs: Seq<HeadingPosView>, i: nat, level: u8, to: nat) -> nat
    decreases hs.len() - i,
{
    if i >= hs.len() {
        to
    } else if hs[i as int].offset < to && hs[i as int].level <= level {
        hs[i as int].offset as nat
    } else {
        section_end(hs, i + 1, level, to)
    }
}

/// The section that the first `k` names lead to: each name is looked up in the section of the
/// one before it.
pub open spec fn section_of(
    hs: Seq<HeadingPosView>,
    names: Seq<Seq<char>>,
    k: nat,
    size: nat,
) -> Option<(nat, nat)>
    decreases k,
{
    if k == 0 {
        Some((0, size))
    } else {
        match section_of(hs, names, (k - 1) as nat, size) {
            None => None,
            Some((from, to)) => {
                let i = heading_from(hs, 0, from, to, text::trim(names[k - 1]));
                if i < hs.len() {
                    Some(
                        (
                            hs[i as int].offset as nat,
                            section_end(hs, i + 1, hs[i as int].level, to),
                        ),
                    )
                } else {
                    None
                }
            },
        }
    }
}

/// The bytes of the section that a path of headings leads to.
pub open spec fn heading_section(
    content: Seq<char>,
    heading_path: Seq<char>,
    delimiter: Seq<char>,
) -> Option<(nat, nat)> {
    let names = parts_of(heading_path, delimiter);
    section_of(note_headings(content), names, names.len(), text::byte_len(content))
}

/// Computes [`parts_of`].
fn split_parts(s: &[char], sep: &[char]) -> (r: Vec<Vec<char>>)
    ensures
        text::texts(r@) == parts_of(s@, sep@),
{
    if sep.len() > 0 {
        return text::split_on(s, sep);
    }
    let mut r: Vec<Vec<char>> = Vec::new();
    r.push(Vec::new());
    let mut i: usize = 0;
    while i < s.len()
        invariant
            i <= s.len(),
            text::texts(r@) =~= seq![Seq::empty()] + s@.take(i as int).map_values(
                |c: char| seq![c],
            ),
        decreases s.len() - i,
    {
        let ghost before = r@;
        let mut one: Vec<char> = Vec::new();
        one.push(s[i]);
        r.push(one);
        assert(text::texts(r@) =~= text::texts(before).push(one@));
        assert(one@ =~= seq![s@[i as int]]);
        i = i + 1;
    }
    let ghost before = r@;
    let empty: Vec<char> = Vec::new();
    r.push(empty);
    assert(text::texts(r@) =~= text::texts(before).push(empty@));
    assert(empty@ =~= Seq::<char>::empty());
    assert(s@.take(i as int) =~= s@);
    r
}

proof fn lemma_section_none(
    hs: Seq<HeadingPosView>,
    names: Seq<Seq<char>>,
    k: nat,
    n: nat,
    size: nat,
)
    requires
        section_of(hs, names, k, size) is None,
        k <= n,
    ensures
        section_of(hs, names, n, size) is None,
    decreases n,
{
    if k < n {
        lemma_section_none(hs, names, k, (n - 1) as nat, size);
    }
}

/// Finds the section that a path of names leads to among headings of a text of some size.
pub fn section_among(headings: &Vec<HeadingPos>, names: &Vec<Vec<char>>, size: usize) -> (r: Option<
    (usize, usize),
>)
    ensures
        match r {
            Some((from, to)) => section_of(
                heading_pos_views(headings@),
                text::texts(names@),
                names.len() as nat,
                size as nat,
            ) == Some((from as nat, to as nat)),
            None => section_of(
                heading_pos_views(headings@),
                text::texts(names@),
                names.len() as nat,
                size as nat,
            ) is None,
        },
{
    let ghost hs = heading_pos_views(headings@);
    let ghost ns = text::texts(names@);
    let mut from: usize = 0;
    let mut to: usize = size;
    let mut k: usize = 0;
    while k < names.len()
        invariant
            k <= names.len(),
            hs == heading_pos_views(headings@),
            ns == text::texts(names@),
            section_of(hs, ns, k as nat, size as nat) == Some((from as nat, to as nat)),
        decreases names.len() - k,
    {
        assert(ns[k as int] == names@[k as int]@);
        let name = text::trimmed(&names[k]);
        let mut i: usize = 0;
        let mut found: bool = false;
        while i < headings.len() && !found
            invariant
                i <= headings.len(),
                hs == heading_pos_views(headings@),
                found ==> i < headings.len(),
                heading_from(hs, 0, from as nat, to as nat, name@) == if found {
                    i as nat
                } else {
                    heading_from(hs, i as nat, from as nat, to as nat, name@)
                },
            decreases headings.len() - i + if found { 0int } else { 1int },
        {
            let h = &headings[i];
            assert(hs[i as int] == h@);
            if h.offset >= from && h.offset < to {
                let t = text::to_chars(&h.text);
                if text::same_ignore_ascii_case(&t, name) {
                    found = true;
                } else {
                    i = i + 1;
                }
            } else {
                i = i + 1;
            }
        }
        if !found {
            proof {
                lemma_section_none(hs, ns, (k + 1) as nat, names.len() as nat, size as nat);
            }
            return None;
        }
        let level = headings[i].level;
        assert(hs[i as int] == headings@[i as int]@);
        let ghost to_before = to;
        let mut end: usize = to;
        let mut j: usize = i + 1;
        let mut closed: bool = false;
        while j < headings.len() && !closed
            invariant
                i < j <= headings.len(),
                hs == heading_pos_views(headings@),
                section_end(hs, (i + 1) as nat, level, to as nat) == if closed {
                    end as nat
                } else {
                    section_end(hs, j as nat, level, to as nat)
                },
                !closed ==> end == to,
            decreases headings.len() - j + if closed { 0int } else { 1int },
        {
            let h = &headings[j];
            assert(hs[j as int] == h@);
            if h.offset < to && h.level <= level {
                end = h.offset;
                closed = true;
            } else {
                j = j + 1;
            }
        }
        from = headings[i].offset;
        to = end;
        k = k + 1;
    }
    Some((from, to))
}

/// Finds the byte range of a heading section.
///
/// `heading_path` supports nested headings separated by `delimiter`. The range spans from the
/// heading line to just before the next heading of the same or higher level, or to the end of
/// the parent section or the text.
pub fn find_heading_range(content: &str, heading_path: &str, delimiter: &str) -> (r: Option<
    (usize, usize),
>)
    ensures
        match r {
            Some((from, to)) => heading_section(content@, heading_path@, delimiter@) == Some(
                (from as nat, to as nat),
            ),
            None => heading_section(content@, heading_path@, delimiter@) is None,
        },
{
    let headings = extract_headings_with_offsets(content);
    let path_chars = text::to_chars(heading_path);
    let sep = text::to_chars(delimiter);
    let names = split_parts(&path_chars, &sep);
    let bytes = content.as_bytes();
    let size = bytes.len();
    assert(text::texts(names@).len() == names@.len());
    section_among(&headings, &names, size)
}

/// The pattern of the line that ends with the reference to a block. White space may follow on the
/// line, but no line feed.
pub open spec fn block_line_pattern(id: Seq<char>) -> Seq<char> {
    "(?m)^.*\\^"@ + pattern::escaped(id) + "[^\\S\\n]*$"@
}

/// Finds the byte range of the line containing a block reference (`^blockid`).
pub fn find_block_ref_range(content: &str, block_id: &str) -> (r: Option<(usize, usize)>)
    ensures
        ({
            let found = pattern::matches_of(block_line_pattern(block_id@), content@);
            if found.len() > 0 {
                r is Some && found[0][0] == r
            } else {
                r is None
            }
        }),
{
    let mut whole = "(?m)^.*\\^".to_owned();
    whole.push_str(&pattern::escape(block_id));
    whole.push_str("[^\\S\\n]*$");
    let found = pattern::find_matches(&whole, content);
    assert(pattern::spans(found@).len() == found@.len());
    if found.len() > 0 {
        assert(pattern::spans(found@)[0] == found@[0]@);
        assert(pattern::spans(found@)[0].len() > 0);
        found[0][0]
    } else {
        None
    }
}

// ---------------------------------------------------------------------------
// Laws
// ---------------------------------------------------------------------------

/// The tags of a note are in ascending order without repetitions, and they are exactly the tags
/// that stand in its prose.
pub proof fn law_tags_are_sorted_and_unique(content: Seq<char>)
    ensures
        text::ascending(inline_tags(content)),
        forall|tag: Seq<char>| #[trigger]
            inline_tags(content).contains(tag) <==> prose_matches(content, tag_pattern()).contains(
                tag,
            ),
{
    let all = prose_matches(content, tag_pattern());
    text::lemma_sorted_set(all, all.len());
    assert(all.take(all.len() as int) =~= all);
}

proof fn lemma_prose_groups(
    content: Seq<char>,
    found: Seq<Seq<Option<(usize, usize)>>>,
    excluded: Seq<(usize, usize)>,
    k: nat,
    i: int,
)
    requires
        k <= found.len(),
        0 <= i < prose_groups(content, found, excluded, k).len(),
    ensures
        exists|j: int|
            0 <= j < k && (#[trigger] found[j]).len() > 1 && found[j][1] is Some && !in_ranges(
                pattern::start_of(found[j][1]) as usize,
                excluded,
            ) && prose_groups(content, found, excluded, k)[i] == text::byte_slice(
                content,
                pattern::start_of(found[j][1]),
                pattern::end_of(found[j][1]),
            ),
    decreases k,
{
    if k > 0 {
        let before = prose_groups(content, found, excluded, (k - 1) as nat);
        if i < before.len() {
            lemma_prose_groups(content, found, excluded, (k - 1) as nat, i);
        } else {
            assert(found[k - 1].len() > 1);
        }
    }
}

/// No tag and no block reference is taken from code or front matter: each one is a match that
/// starts outside all such ranges.
pub proof fn law_code_holds_no_tags(content: Seq<char>, regex: Seq<char>, i: int)
    requires
        0 <= i < prose_matches(content, regex).len(),
    ensures
        ({
            let found = pattern::matches_of(regex, content);
            exists|j: int|
                0 <= j < found.len() && (#[trigger] found[j]).len() > 1 && found[j][1] is Some
                    && !in_ranges(
                    pattern::start_of(found[j][1]) as usize,
                    excluded_ranges(content),
                ) && prose_matches(content, regex)[i] == text::byte_slice(
                    content,
                    pattern::start_of(found[j][1]),
                    pattern::end_of(found[j][1]),
                )
        }),
{
    let found = pattern::matches_of(regex, content);
    lemma_prose_groups(content, found, excluded_ranges(content), found.len(), i);
}

/// A link names a heading or a block of its target, never both, and an alias is never empty.
pub proof fn law_link_parts(raw: Seq<char>, inner: Seq<char>, line: nat)
    ensures
        !(link_of(raw, inner, line).heading is Some && link_of(raw, inner, line).block_ref is Some),
        link_of(raw, inner, line).alias matches Some(a) ==> a.len() > 0,
        !link_of(raw, inner, line).target.contains('#'),
        !link_of(raw, inner, line).target.contains('|'),
{
    let (link, alias) = cut_at(inner, '|');
    text::lemma_find_first(inner, '|');
    text::lemma_find_first(link, '#');
    let target = cut_at(link, '#').0;
    if target.contains('|') {
        let i = choose|i: int| 0 <= i < target.len() && target[i] == '|';
        assert(link[i] == '|');
    }
}

/// A link that is put together from a target and a heading, a block or an alias is taken apart
/// into them.
pub proof fn law_link_comes_apart(
    raw: Seq<char>,
    target: Seq<char>,
    fragment: Seq<char>,
    alias: Seq<char>,
    line: nat,
)
    requires
        !target.contains('#') && !target.contains('|'),
        !fragment.contains('|'),
        alias.len() > 0,
    ensures
        link_of(raw, target, line).target == target,
        link_of(raw, target + seq!['#'] + fragment + seq!['|'] + alias, line).target == target,
        link_of(raw, target + seq!['#'] + fragment + seq!['|'] + alias, line).alias == Some(alias),
        link_of(raw, target + seq!['#'] + fragment + seq!['|'] + alias, line).heading == (
        if fragment.len() > 0 && fragment[0] == '^' {
            None
        } else {
            Some(fragment)
        }),
        link_of(raw, target + seq!['#'] + fragment + seq!['|'] + alias, line).block_ref == (
        if fragment.len() > 0 && fragment[0] == '^' {
            Some(fragment.skip(1))
        } else {
            None
        }),
{
    text::lemma_find_absent(target, '|');
    text::lemma_find_absent(target, '#');
    let link = target + seq!['#'] + fragment;
    let inner = link + seq!['|'] + alias;
    if link.contains('|') {
        let i = choose|i: int| 0 <= i < link.len() && link[i] == '|';
        if i < target.len() {
            assert(target[i] == '|');
        } else {
            assert(fragment[i - target.len() - 1] == '|');
        }
    }
    text::lemma_find_after(link, '|', alias);
    text::lemma_find_after(target, '#', fragment);
    assert(inner.take(link.len() as int) =~= link);
    assert(inner.skip(link.len() as int + 1) =~= alias);
    assert(link.take(target.len() as int) =~= target);
    assert(link.skip(target.len() as int + 1) =~= fragment);
}

/// Whether an event opens a code block or the front matter.
pub open spec fn opens_block(e: EventView) -> bool {
    e is CodeBlockStart || e is MetadataStart
}

/// Whether an event closes a code block or the front matter.
pub open spec fn closes_block(e: EventView) -> bool {
    e is CodeBlockEnd || e is MetadataEnd
}

/// Whether events `i` and `j` are the start and the end of a code block or of the front matter.
pub open spec fn is_block(events: Seq<(EventView, usize, usize)>, i: int, j: int) -> bool {
    &&& 0 <= i < j < events.len()
    &&& opens_block(events[i].0)
    &&& closes_block(events[j].0)
    &&& forall|m: int|
        i < m < j ==> !opens_block((#[trigger] events[m]).0) && !closes_block(events[m].0)
}

/// Whether a byte lies in a code block, in the front matter or in inline code.
pub open spec fn in_code(events: Seq<(EventView, usize, usize)>, offset: usize) -> bool {
    ||| exists|i: int, j: int| #[trigger]
        is_block(events, i, j) && events[i].1 <= offset < events[j].2
    ||| exists|i: int|
        0 <= i < events.len() && (#[trigger] events[i]).0 is Code && events[i].1 <= offset
            < events[i].2
}

proof fn lemma_open_block(events: Seq<(EventView, usize, usize)>, k: nat)
    requires
        k <= events.len(),
    ensures
        code_ranges(events, k).1 matches Some(from) ==> exists|i: int|
            {
                &&& 0 <= i < k
                &&& opens_block((#[trigger] events[i]).0)
                &&& events[i].1 == from
                &&& forall|m: int|
                    i < m < k ==> !opens_block((#[trigger] events[m]).0) && !closes_block(
                        events[m].0,
                    )
            },
    decreases k,
{
    if k > 0 {
        lemma_open_block(events, (k - 1) as nat);
        let open = code_ranges(events, (k - 1) as nat).1;
        let e = events[k - 1].0;
        if opens_block(e) {
            assert(events[k - 1].1 == events[k - 1].1);
        } else if !closes_block(e) {
            if let Some(from) = open {
                let i = choose|i: int|
                    {
                        &&& 0 <= i < k - 1
                        &&& opens_block((#[trigger] events[i]).0)
                        &&& events[i].1 == from
                        &&& forall|m: int|
                            i < m < k - 1 ==> !opens_block((#[trigger] events[m]).0)
                                && !closes_block(events[m].0)
                    };
                assert forall|m: int| i < m < k implies !opens_block((#[trigger] events[m]).0)
                    && !closes_block(events[m].0) by {
                    if m < k - 1 {
                    }
                }
                assert(opens_block(events[i].0));
            }
        }
    }
}

proof fn lemma_block_open(events: Seq<(EventView, usize, usize)>, i: int, k: nat)
    requires
        0 <= i < k <= events.len(),
        opens_block(events[i].0),
        forall|m: int|
            i < m < k ==> !opens_block((#[trigger] events[m]).0) && !closes_block(events[m].0),
    ensures
        code_ranges(events, k).1 == Some(events[i].1),
    decreases k,
{
    if k > i + 1 {
        lemma_block_open(events, i, (k - 1) as nat);
        assert(!opens_block(events[k - 1].0) && !closes_block(events[k - 1].0));
    }
}

proof fn lemma_ranges_stay(events: Seq<(EventView, usize, usize)>, k: nat, n: nat, r: (usize, usize))
    requires
        k <= n <= events.len(),
        code_ranges(events, k).0.contains(r),
    ensures
        code_ranges(events, n).0.contains(r),
    decreases n,
{
    if k < n {
        lemma_ranges_stay(events, k, (n - 1) as nat, r);
        let before = code_ranges(events, (n - 1) as nat).0;
        let all = code_ranges(events, n).0;
        let i = choose|i: int| 0 <= i < before.len() && before[i] == r;
        assert(all[i] == r);
    }
}

/// Every code block, the front matter and every inline code is left out from its start to its
/// end, no matter how many others there are.
pub proof fn law_code_is_left_out(events: Seq<(EventView, usize, usize)>, i: int, j: int)
    ensures
        is_block(events, i, j) ==> code_ranges(events, events.len()).0.contains(
            (events[i].1, events[j].2),
        ),
        0 <= i < events.len() && events[i].0 is Code ==> code_ranges(
            events,
            events.len(),
        ).0.contains((events[i].1, events[i].2)),
{
    if is_block(events, i, j) {
        lemma_block_open(events, i, j as nat);
        let r = (events[i].1, events[j].2);
        let at = code_ranges(events, (j + 1) as nat).0;
        assert(at[at.len() - 1] == r);
        lemma_ranges_stay(events, (j + 1) as nat, events.len(), r);
    }
    if 0 <= i < events.len() && events[i].0 is Code {
        let r = (events[i].1, events[i].2);
        let at = code_ranges(events, (i + 1) as nat).0;
        assert(at[at.len() - 1] == r);
        lemma_ranges_stay(events, (i + 1) as nat, events.len(), r);
    }
}

proof fn lemma_range_is_code(events: Seq<(EventView, usize, usize)>, k: nat, h: int)
    requires
        k <= events.len(),
        0 <= h < code_ranges(events, k).0.len(),
    ensures
        ({
            let r = code_ranges(events, k).0[h];
            ||| exists|i: int, j: int| #[trigger]
                is_block(events, i, j) && r == (events[i].1, events[j].2)
            ||| exists|i: int|
                0 <= i < events.len() && (#[trigger] events[i]).0 is Code && r == (
                    events[i].1,
                    events[i].2,
                )
        }),
    decreases k,
{
    if k > 0 {
        let before = code_ranges(events, (k - 1) as nat);
        if h < before.0.len() {
            lemma_range_is_code(events, (k - 1) as nat, h);
        } else {
            let e = events[k - 1];
            if closes_block(e.0) {
                lemma_open_block(events, (k - 1) as nat);
                let from = before.1->0;
                let i = choose|i: int|
                    {
                        &&& 0 <= i < k - 1
                        &&& opens_block((#[trigger] events[i]).0)
                        &&& events[i].1 == from
                        &&& forall|m: int|
                            i < m < k - 1 ==> !opens_block((#[trigger] events[m]).0)
                                && !closes_block(events[m].0)
                    };
                assert(is_block(events, i, k - 1));
            } else {
                assert(events[k - 1].0 is Code);
            }
        }
    }
}

/// A byte is left out just where it lies in a code block, in the front matter or in inline code.
pub proof fn law_left_out_is_code(content: Seq<char>, offset: usize)
    ensures
        in_ranges(offset, excluded_ranges(content)) <==> in_code(note_events(content), offset),
{
    let events = note_events(content);
    let ranges = excluded_ranges(content);
    if in_ranges(offset, ranges) {
        let h = choose|h: int|
            0 <= h < ranges.len() && (#[trigger] ranges[h]).0 <= offset < ranges[h].1;
        lemma_range_is_code(events, events.len(), h);
    }
    if exists|i: int, j: int| #[trigger]
        is_block(events, i, j) && events[i].1 <= offset < events[j].2 {
        let (i, j) = choose|i: int, j: int| #[trigger]
            is_block(events, i, j) && events[i].1 <= offset < events[j].2;
        law_code_is_left_out(events, i, j);
        let h = choose|h: int| 0 <= h < ranges.len() && ranges[h] == (events[i].1, events[j].2);
        assert(ranges[h].0 <= offset < ranges[h].1);
    }
    if exists|i: int|
        0 <= i < events.len() && (#[trigger] events[i]).0 is Code && events[i].1 <= offset
            < events[i].2 {
        let i = choose|i: int|
            0 <= i < events.len() && (#[trigger] events[i]).0 is Code && events[i].1 <= offset
                < events[i].2;
        law_code_is_left_out(events, i, i);
        let h = choose|h: int| 0 <= h < ranges.len() && ranges[h] == (events[i].1, events[i].2);
        assert(ranges[h].0 <= offset < ranges[h].1);
    }
}

/// Whether places are some of the first `n`, each once and in their order.
pub open spec fn is_choice(ks: Seq<int>, n: nat) -> bool {
    &&& forall|i: int| 0 <= i < ks.len() ==> 0 <= #[trigger] ks[i] < n
    &&& forall|i: int, j: int| 0 <= i < j < ks.len() ==> #[trigger] ks[i] < #[trigger] ks[j]
}

/// Whether a match is a link outside all code.
pub open spec fn is_prose_link(
    events: Seq<(EventView, usize, usize)>,
    m: Seq<Option<(usize, usize)>>,
) -> bool {
    &&& m.len() > 1
    &&& m[0] is Some
    &&& m[1] is Some
    &&& !in_code(events, pattern::start_of(m[0]) as usize)
}

/// Whether a match has a group that starts outside all code.
pub open spec fn is_prose_group(
    events: Seq<(EventView, usize, usize)>,
    m: Seq<Option<(usize, usize)>>,
) -> bool {
    &&& m.len() > 1
    &&& m[1] is Some
    &&& !in_code(events, pattern::start_of(m[1]) as usize)
}

/// The links of a note are just those of its wikilinks that start outside all code, each once and
/// in their order: with the text of the whole match, what stands between the brackets, and the
/// line on which it starts.
pub proof fn law_links_are_in_prose(content: Seq<char>)
    ensures
        ({
            let found = pattern::matches_of(link_pattern(), content);
            let events = note_events(content);
            let links = note_links(content);
            exists|ks: Seq<int>| #[trigger]
                is_choice(ks, found.len()) && {
                    &&& ks.len() == links.len()
                    &&& forall|h: int|
                        0 <= h < ks.len() ==> {
                            let m = found[#[trigger] ks[h]];
                            &&& is_prose_link(events, m)
                            &&& links[h] == link_of(
                                text::byte_slice(content, pattern::start_of(m[0]), pattern::end_of(m[0])),
                                text::byte_slice(content, pattern::start_of(m[1]), pattern::end_of(m[1])),
                                line_at(content, pattern::start_of(m[0])),
                            )
                        }
                    &&& forall|j: int|
                        0 <= j < found.len() && is_prose_link(events, #[trigger] found[j])
                            ==> ks.contains(j)
                }
        }),
{
    let found = pattern::matches_of(link_pattern(), content);
    let ks = lemma_prose_links(content, found, found.len());
    assert(is_choice(ks, found.len()));
}

proof fn lemma_prose_links(
    content: Seq<char>,
    found: Seq<Seq<Option<(usize, usize)>>>,
    k: nat,
) -> (ks: Seq<int>)
    requires
        k <= found.len(),
    ensures
        ({
            let events = note_events(content);
            let links = prose_links(content, found, excluded_ranges(content), k);
            &&& is_choice(ks, k)
            &&& ks.len() == links.len()
            &&& forall|h: int|
                0 <= h < ks.len() ==> {
                    let m = found[#[trigger] ks[h]];
                    &&& is_prose_link(events, m)
                    &&& links[h] == link_of(
                        text::byte_slice(content, pattern::start_of(m[0]), pattern::end_of(m[0])),
                        text::byte_slice(content, pattern::start_of(m[1]), pattern::end_of(m[1])),
                        line_at(content, pattern::start_of(m[0])),
                    )
                }
            &&& forall|j: int|
                0 <= j < k && is_prose_link(events, #[trigger] found[j]) ==> ks.contains(j)
        }),
    decreases k,
{
    if k == 0 {
        Seq::empty()
    } else {
        let less = lemma_prose_links(content, found, (k - 1) as nat);
        let m = found[k - 1];
        let events = note_events(content);
        if m.len() > 1 && m[0] is Some {
            law_left_out_is_code(content, pattern::start_of(m[0]) as usize);
        }
        if is_prose_link(events, m) {
            let ks = less.push(k - 1);
            assert forall|j: int|
                0 <= j < k && is_prose_link(events, #[trigger] found[j]) implies ks.contains(j) by {
                if j < k - 1 {
                    assert(less.contains(j));
                    let h = choose|h: int| 0 <= h < less.len() && less[h] == j;
                    assert(ks[h] == j);
                } else {
                    assert(ks[less.len() as int] == j);
                }
            }
            assert forall|i: int, j: int| 0 <= i < j < ks.len() implies #[trigger] ks[i]
                < #[trigger] ks[j] by {
                if j < less.len() {
                    assert(less[i] < less[j]);
                } else {
                    assert(less[i] < k - 1);
                }
            }
            ks
        } else {
            less
        }
    }
}

/// What a pattern finds in a note is just what the first groups of its matches hold that start
/// outside all code, each once and in their order.
pub proof fn law_groups_are_in_prose(content: Seq<char>, regex: Seq<char>)
    ensures
        ({
            let found = pattern::matches_of(regex, content);
            let events = note_events(content);
            let groups = prose_matches(content, regex);
            exists|ks: Seq<int>| #[trigger]
                is_choice(ks, found.len()) && {
                    &&& ks.len() == groups.len()
                    &&& forall|h: int|
                        0 <= h < ks.len() ==> {
                            let m = found[#[trigger] ks[h]];
                            &&& is_prose_group(events, m)
                            &&& groups[h] == text::byte_slice(
                                content,
                                pattern::start_of(m[1]),
                                pattern::end_of(m[1]),
                            )
                        }
                    &&& forall|j: int|
                        0 <= j < found.len() && is_prose_group(events, #[trigger] found[j])
                            ==> ks.contains(j)
                }
        }),
        note_block_refs(content) == prose_matches(content, block_pattern()),
{
    let found = pattern::matches_of(regex, content);
    let ks = lemma_groups_chosen(content, found, found.len());
    assert(is_choice(ks, found.len()));
}

proof fn lemma_groups_chosen(
    content: Seq<char>,
    found: Seq<Seq<Option<(usize, usize)>>>,
    k: nat,
) -> (ks: Seq<int>)
    requires
        k <= found.len(),
    ensures
        ({
            let events = note_events(content);
            let groups = prose_groups(content, found, excluded_ranges(content), k);
            &&& is_choice(ks, k)
            &&& ks.len() == groups.len()
            &&& forall|h: int|
                0 <= h < ks.len() ==> {
                    let m = found[#[trigger] ks[h]];
                    &&& is_prose_group(events, m)
                    &&& groups[h] == text::byte_slice(
                        content,
                        pattern::start_of(m[1]),
                        pattern::end_of(m[1]),
                    )
                }
            &&& forall|j: int|
                0 <= j < k && is_prose_group(events, #[trigger] found[j]) ==> ks.contains(j)
        }),
    decreases k,
{
    if k == 0 {
        Seq::empty()
    } else {
        let less = lemma_groups_chosen(content, found, (k - 1) as nat);
        let m = found[k - 1];
        let events = note_events(content);
        if m.len() > 1 && m[1] is Some {
            law_left_out_is_code(content, pattern::start_of(m[1]) as usize);
        }
        if is_prose_group(events, m) {
            let ks = less.push(k - 1);
            assert forall|j: int|
                0 <= j < k && is_prose_group(events, #[trigger] found[j]) implies ks.contains(
                j,
            ) by {
                if j < k - 1 {
                    assert(less.contains(j));
                    let h = choose|h: int| 0 <= h < less.len() && less[h] == j;
                    assert(ks[h] == j);
                } else {
                    assert(ks[less.len() as int] == j);
                }
            }
            assert forall|i: int, j: int| 0 <= i < j < ks.len() implies #[trigger] ks[i]
                < #[trigger] ks[j] by {
                if j < less.len() {
                    assert(less[i] < less[j]);
                } else {
                    assert(less[i] < k - 1);
                }
            }
            ks
        } else {
            less
        }
    }
}

/// The number of a line is the number of line feeds before it: a line feed counts one, everything
/// else nothing.
pub proof fn law_line_numbers(content: Seq<char>, n: int, a: Seq<char>, b: Seq<char>, c: char)
    requires
        0 <= n <= content.len(),
    ensures
        line_at(content, text::byte_len(content.take(n)) as int) == line_feeds(content.take(n)),
        line_feeds(a + b) == line_feeds(a) + line_feeds(b),
        line_feeds(seq!['\n']) == 1,
        c != '\n' ==> line_feeds(seq![c]) == 0,
        line_feeds(Seq::empty()) == 0,
    decreases b.len(),
{
    text::law_characters_and_bytes(content, n, n);
    reveal_with_fuel(line_feeds, 2);
    assert(seq!['\n'].drop_last() =~= Seq::<char>::empty());
    assert(seq![c].drop_last() =~= Seq::<char>::empty());
    if b.len() > 0 {
        law_line_numbers(content, n, a, b.drop_last(), c);
        assert((a + b).drop_last() =~= a + b.drop_last());
        assert((a + b).last() == b.last());
    } else {
        assert(a + b =~= a);
    }
}

/// The text of a heading: what stands in the events `i..k`, with a space for a line break.
pub open spec fn heading_text(events: Seq<(EventView, usize, usize)>, i: int, k: int) -> Seq<char>
    decreases k - i,
{
    if k <= i {
        Seq::empty()
    } else {
        heading_text(events, i, k - 1) + match events[k - 1].0 {
            EventView::Text(t) => t,
            EventView::Code(t) => t,
            EventView::SoftBreak => seq![' '],
            _ => Seq::empty(),
        }
    }
}

/// Whether events `i` and `j` are the start and the end of a heading.
pub open spec fn is_heading(events: Seq<(EventView, usize, usize)>, i: int, j: int) -> bool {
    &&& 0 <= i < j < events.len()
    &&& events[i].0 is HeadingStart
    &&& events[j].0 is HeadingEnd
    &&& forall|m: int|
        i < m < j ==> !((#[trigger] events[m]).0 is HeadingStart) && !(events[m].0 is HeadingEnd)
}

proof fn lemma_heading_open(
    content: Seq<char>,
    events: Seq<(EventView, usize, usize)>,
    i: int,
    k: nat,
)
    requires
        0 <= i < k <= events.len(),
        events[i].0 is HeadingStart,
        forall|m: int|
            i < m < k ==> !((#[trigger] events[m]).0 is HeadingStart) && !(events[m].0
                is HeadingEnd),
    ensures
        headings_of(content, events, k).1 == Some(
            (events[i].0->HeadingStart_0, heading_text(events, i + 1, k as int), events[i].1),
        ),
    decreases k,
{
    if k > i + 1 {
        lemma_heading_open(content, events, i, (k - 1) as nat);
        assert(!(events[k - 1].0 is HeadingStart) && !(events[k - 1].0 is HeadingEnd));
        let before = heading_text(events, i + 1, k - 1);
        assert(heading_text(events, i + 1, k as int) =~= match events[k - 1].0 {
            EventView::Text(t) => before + t,
            EventView::Code(t) => before + t,
            EventView::SoftBreak => before.push(' '),
            _ => before,
        });
    } else {
        assert(heading_text(events, i + 1, k as int) =~= Seq::<char>::empty());
    }
}

proof fn lemma_headings_stay(
    content: Seq<char>,
    events: Seq<(EventView, usize, usize)>,
    k: nat,
    n: nat,
    h: HeadingPosView,
)
    requires
        k <= n <= events.len(),
        headings_of(content, events, k).0.contains(h),
    ensures
        headings_of(content, events, n).0.contains(h),
    decreases n,
{
    if k < n {
        lemma_headings_stay(content, events, k, (n - 1) as nat, h);
        let before = headings_of(content, events, (n - 1) as nat).0;
        let all = headings_of(content, events, n).0;
        let i = choose|i: int| 0 <= i < before.len() && before[i] == h;
        assert(all[i] == h);
    }
}

/// Every heading that the Markdown parser reports is a heading of the note: with its level, all of
/// its text, code in it too, the byte at which it starts and the line of that byte.
pub proof fn law_reported_headings(content: Seq<char>, i: int, j: int)
    requires
        is_heading(note_events(content), i, j),
    ensures
        ({
            let events = note_events(content);
            exists|h: int|
                {
                    &&& 0 <= h < note_headings(content).len()
                    &&& (#[trigger] note_headings(content)[h]).level
                        == events[i].0->HeadingStart_0
                    &&& note_headings(content)[h].text == heading_text(events, i + 1, j)
                    &&& note_headings(content)[h].offset == events[i].1
                    &&& note_headings(content)[h].line == line_at(content, events[i].1 as int)
                }
        }),
{
    let events = note_events(content);
    lemma_heading_open(content, events, i, j as nat);
    let h = HeadingPosView {
        level: events[i].0->HeadingStart_0,
        text: heading_text(events, i + 1, j),
        line: line_at(content, events[i].1 as int),
        offset: events[i].1,
    };
    let at = headings_of(content, events, (j + 1) as nat).0;
    assert(at[at.len() - 1] == h);
    lemma_headings_stay(content, events, (j + 1) as nat, events.len(), h);
    let all = note_headings(content);
    let n = choose|n: int| 0 <= n < all.len() && all[n] == h;
    assert(all[n].offset == events[i].1);
}

/// In a map of a note a heading stands as it is written: as many `#` as its level says, a space,
/// and its text.
pub proof fn law_heading_in_map(h: HeadingPosView, i: int)
    ensures
        heading_line(h).len() == h.level + 1 + h.text.len(),
        0 <= i < h.level ==> heading_line(h)[i] == '#',
        heading_line(h)[h.level as int] == ' ',
        heading_line(h).skip(h.level + 1) == h.text,
{
    assert(heading_line(h).skip(h.level + 1) =~= h.text);
}

/// A link of a bare target names nothing else; a `#` is followed by a heading, or with a `^` by a
/// block; a `|` is followed by an alias, which counts only if there is one. The link keeps its
/// text and its line.
pub proof fn law_kinds_of_links(
    raw: Seq<char>,
    target: Seq<char>,
    name: Seq<char>,
    alias: Seq<char>,
    line: nat,
)
    requires
        !target.contains('#') && !target.contains('|'),
        !name.contains('|'),
        name.len() > 0 ==> name[0] != '^',
    ensures
        link_of(raw, target, line) == (LinkView {
            raw,
            target,
            heading: None,
            block_ref: None,
            alias: None,
            line,
        }),
        link_of(raw, target + seq!['#'] + name, line) == (LinkView {
            raw,
            target,
            heading: Some(name),
            block_ref: None,
            alias: None,
            line,
        }),
        link_of(raw, target + seq!['#', '^'] + name, line) == (LinkView {
            raw,
            target,
            heading: None,
            block_ref: Some(name),
            alias: None,
            line,
        }),
        link_of(raw, target + seq!['|'] + alias, line) == (LinkView {
            raw,
            target,
            heading: None,
            block_ref: None,
            alias: if alias.len() > 0 {
                Some(alias)
            } else {
                None
            },
            line,
        }),
{
    text::lemma_find_absent(target, '|');
    text::lemma_find_absent(target, '#');
    lemma_link_with_fragment(raw, target, name, line);
    let block = seq!['^'] + name;
    if block.contains('|') {
        let i = choose|i: int| 0 <= i < block.len() && block[i] == '|';
        assert(name[i - 1] == '|');
    }
    lemma_link_with_fragment(raw, target, block, line);
    assert(block.skip(1) =~= name);
    assert(target + seq!['#', '^'] + name =~= target + seq!['#'] + block);
    let inner = target + seq!['|'] + alias;
    text::lemma_find_after(target, '|', alias);
    assert(inner.take(target.len() as int) =~= target);
    assert(inner.skip(target.len() as int + 1) =~= alias);
}

proof fn lemma_link_with_fragment(
    raw: Seq<char>,
    target: Seq<char>,
    fragment: Seq<char>,
    line: nat,
)
    requires
        !target.contains('#') && !target.contains('|'),
        !fragment.contains('|'),
    ensures
        cut_at(target + seq!['#'] + fragment, '|') == (
            target + seq!['#'] + fragment,
            None::<Seq<char>>,
        ),
        cut_at(target + seq!['#'] + fragment, '#') == (target, Some(fragment)),
{
    let link = target + seq!['#'] + fragment;
    if link.contains('|') {
        let i = choose|i: int| 0 <= i < link.len() && link[i] == '|';
        if i < target.len() {
            assert(target[i] == '|');
        } else {
            assert(fragment[i - target.len() - 1] == '|');
        }
    }
    text::lemma_find_absent(link, '|');
    text::lemma_find_after(target, '#', fragment);
    assert(link.take(target.len() as int) =~= target);
    assert(link.skip(target.len() as int + 1) =~= fragment);
}

/// Whether bytes `at..end` are a heading of a name with its section, within bytes `from..to`: the
/// first heading of that name there, down to the next heading of the list that is not below it, or
/// to the end of the bytes.
pub open spec fn is_section_of(
    hs: Seq<HeadingPosView>,
    name: Seq<char>,
    from: nat,
    to: nat,
    at: nat,
    end: nat,
) -> bool {
    exists|i: int|
        {
            &&& 0 <= i < hs.len()
            &&& (#[trigger] hs[i]).offset == at
            &&& from <= at < to
            &&& text::eq_ignore_ascii_case(hs[i].text, text::trim(name))
            &&& forall|j: int|
                0 <= j < i && from <= (#[trigger] hs[j]).offset < to
                    ==> !text::eq_ignore_ascii_case(hs[j].text, text::trim(name))
            &&& ends_section(hs, i, to, end)
        }
}

/// Whether a section ends at a byte: at the next heading that is not below its own one, or else at
/// the end of the bytes in which it lies.
pub open spec fn ends_section(hs: Seq<HeadingPosView>, i: int, to: nat, end: nat) -> bool {
    ||| end == to && forall|j: int|
        i < j < hs.len() && (#[trigger] hs[j]).offset < to ==> hs[j].level > hs[i].level
    ||| exists|j: int|
        {
            &&& i < j < hs.len()
            &&& (#[trigger] hs[j]).offset == end
            &&& end < to
            &&& hs[j].level <= hs[i].level
            &&& forall|m: int|
                i < m < j && (#[trigger] hs[m]).offset < to ==> hs[m].level > hs[i].level
        }
}

proof fn lemma_heading_from(hs: Seq<HeadingPosView>, i: nat, from: nat, to: nat, name: Seq<char>)
    requires
        i <= hs.len(),
    ensures
        ({
            let at = heading_from(hs, i, from, to, name);
            &&& i <= at <= hs.len()
            &&& at < hs.len() ==> from <= hs[at as int].offset < to && text::eq_ignore_ascii_case(
                hs[at as int].text,
                name,
            )
            &&& forall|j: int|
                i <= j < at ==> !(from <= (#[trigger] hs[j]).offset < to
                    && text::eq_ignore_ascii_case(hs[j].text, name))
        }),
    decreases hs.len() - i,
{
    if i < hs.len() && !(from <= hs[i as int].offset < to && text::eq_ignore_ascii_case(
        hs[i as int].text,
        name,
    )) {
        lemma_heading_from(hs, i + 1, from, to, name);
    }
}

proof fn lemma_section_end(hs: Seq<HeadingPosView>, i: int, k: nat, to: nat)
    requires
        0 <= i < k <= hs.len(),
        forall|m: int|
            i < m < k && (#[trigger] hs[m]).offset < to ==> hs[m].level > hs[i].level,
    ensures
        ends_section(hs, i, to, section_end(hs, k, hs[i].level, to)),
    decreases hs.len() - k,
{
    if k < hs.len() {
        if hs[k as int].offset < to && hs[k as int].level <= hs[i].level {
            assert(hs[k as int].offset == section_end(hs, k, hs[i].level, to));
        } else {
            lemma_section_end(hs, i, k + 1, to);
        }
    }
}

/// Each name of a path means the first heading of that name, in any letter case, in the section of
/// the path before it, down to the next heading that is not below it. Where there is none the path
/// leads nowhere.
pub proof fn law_section_of_heading(
    hs: Seq<HeadingPosView>,
    names: Seq<Seq<char>>,
    k: nat,
    size: nat,
)
    requires
        k < names.len(),
    ensures
        section_of(hs, names, 0, size) == Some((0nat, size)),
        match section_of(hs, names, k, size) {
            None => section_of(hs, names, k + 1, size) is None,
            Some((from, to)) => match section_of(hs, names, k + 1, size) {
                Some((at, end)) => is_section_of(hs, names[k as int], from, to, at, end),
                None => forall|j: int|
                    0 <= j < hs.len() && from <= (#[trigger] hs[j]).offset < to
                        ==> !text::eq_ignore_ascii_case(
                        hs[j].text,
                        text::trim(names[k as int]),
                    ),
            },
        },
{
    if let Some((from, to)) = section_of(hs, names, k, size) {
        let n = text::trim(names[k as int]);
        lemma_heading_from(hs, 0, from, to, n);
        let i = heading_from(hs, 0, from, to, n);
        if i < hs.len() {
            lemma_section_end(hs, i as int, i + 1, to);
            let (at, end) = section_of(hs, names, k + 1, size)->0;
            assert(hs[i as int].offset == at);
        }
    }
}

/// The fields of the front matter that a map of a note lists are just its keys that are texts.
pub proof fn law_listed_fields(entries: Seq<(YamlView, YamlView)>, k: nat, s: Seq<char>)
    requires
        k <= entries.len(),
    ensures
        yaml::string_keys(entries, k).contains(s) <==> exists|i: int|
            0 <= i < k && (#[trigger] entries[i]).0 == YamlView::Str(s),
    decreases k,
{
    let all = yaml::string_keys(entries, k);
    if k > 0 {
        law_listed_fields(entries, (k - 1) as nat, s);
        let before = yaml::string_keys(entries, (k - 1) as nat);
        if before.contains(s) {
            let j = choose|j: int| 0 <= j < before.len() && before[j] == s;
            assert(all[j] == s);
            let i = choose|i: int| 0 <= i < k - 1 && (#[trigger] entries[i]).0 == YamlView::Str(s);
            assert(0 <= i < k && entries[i].0 == YamlView::Str(s));
        }
        if entries[k - 1].0 == YamlView::Str(s) {
            assert(all[all.len() - 1] == s);
        }
        if all.contains(s) {
            let j = choose|j: int| 0 <= j < all.len() && all[j] == s;
            if j < before.len() {
                assert(before[j] == s);
            } else {
                assert(entries[k - 1].0 == YamlView::Str(s));
            }
        }
    }
}

/// The pattern of a block line holds the name of the block as it is: nothing in it has a meaning
/// of its own.
pub proof fn law_block_line_pattern(id: Seq<char>)
    ensures
        ({
            let p = block_line_pattern(id);
            let start = "(?m)^.*\\^"@;
            let end = "[^\\S\\n]*$"@;
            &&& p.len() >= start.len() + end.len()
            &&& pattern::literal_of(p.subrange(start.len() as int, p.len() - end.len())) == Some(id)
        }),
{
    let p = block_line_pattern(id);
    let start = "(?m)^.*\\^"@;
    let end = "[^\\S\\n]*$"@;
    pattern::law_escaped_text_is_literal(id);
    assert(p.subrange(start.len() as int, p.len() - end.len()) =~= pattern::escaped(id));
}

/// Markdown is read with the attributes of headings and with blocks of metadata, so that neither
/// is taken for text.
pub proof fn law_reading_of_notes(content: Seq<char>, h: bool, m: bool)
    ensures
        (h && m) ==> note_events(content) == events_of(content, h, m),
{
}

/// What counts as a link, as a tag and as the name of a block.
pub proof fn law_what_is_looked_for()
    ensures
        link_pattern() == seq!['\\', '[', '\\', '['] + seq!['('] + seq!['[', '^', '\\', '[', '\\', ']', ']', '+']
            + seq![')'] + seq!['\\', ']', '\\', ']'],
        tag_pattern() == seq!['(', '?', 'm', ')'] + seq!['(', '?', ':', '^', '|', '[', ' ', '\\', 't', ']', ')']
            + seq!['#'] + seq!['('] + seq!['[', 'a', '-', 'z', 'A', '-', 'Z', ']']
            + seq!['[', '\\', 'w', '/', '-', ']', '*'] + seq![')'],
        block_pattern() == seq!['(', '?', 'm', ')'] + seq!['\\', '^'] + seq!['(']
            + seq!['[', 'a', '-', 'z', 'A', '-', 'Z', '0', '-', '9', '-', ']', '+'] + seq![')']
            + seq!['\\', 's', '*', '$'],
{
    reveal_strlit("\\[\\[([^\\[\\]]+)\\]\\]");
    reveal_strlit("(?m)(?:^|[ \\t])#([a-zA-Z][\\w/-]*)");
    reveal_strlit("(?m)\\^([a-zA-Z0-9-]+)\\s*$");
}

/// The keys of a note are the text keys of its front matter; blank front matter and what is no
/// mapping have none.
pub proof fn law_keys_of_note(content: Seq<char>, yaml: Seq<char>, s: Seq<char>)
    requires
        frontmatter::raw_yaml(content) == Some(yaml),
    ensures
        text::trim(yaml).len() == 0 ==> frontmatter_keys(content).len() == 0,
        text::trim(yaml).len() > 0 ==> (yaml::yaml_value_of(yaml) matches Ok(YamlView::Mapping(entries))
            ==> (frontmatter_keys(content).contains(s) <==> exists|i: int|
            0 <= i < entries.len() && (#[trigger] entries[i]).0 == YamlView::Str(s))),
        yaml::yaml_value_of(yaml) is Err ==> frontmatter_keys(content).len() == 0,
        yaml::yaml_value_of(yaml) matches Ok(v) ==> (v !is Mapping ==> frontmatter_keys(
            content,
        ).len() == 0),
{
    if let Ok(YamlView::Mapping(entries)) = yaml::yaml_value_of(yaml) {
        law_listed_fields(entries, entries.len(), s);
    }
}

/// The path of a heading is its names with the separator between them; an empty separator takes
/// it apart into its characters, with nothing before the first and behind the last.
pub proof fn law_names_in_heading_path(s: Seq<char>, sep: Seq<char>, i: int)
    ensures
        sep.len() > 0 ==> text::join(parts_of(s, sep), sep) == s,
        sep.len() > 0 && 0 <= i < parts_of(s, sep).len() ==> text::find(parts_of(s, sep)[i], sep)
            is None,
        sep.len() == 0 ==> parts_of(s, sep).len() == s.len() + 2,
        sep.len() == 0 ==> parts_of(s, sep)[0].len() == 0 && parts_of(s, sep).last().len()
            == 0,
        sep.len() == 0 && 0 <= i < s.len() ==> parts_of(s, sep)[i + 1] == seq![s[i]],
{
    if sep.len() > 0 {
        text::law_split_text(s, sep);
        if 0 <= i < parts_of(s, sep).len() {
            let p = parts_of(s, sep)[i];
            text::law_found_part(p, sep);
            if let Some(at) = text::find(p, sep) {
                assert(text::stands_at(p, sep, at as int));
            }
        }
    }
}

/// A heading that is named alone is looked for in the whole note, and its section is that of the
/// first heading of the name.
pub proof fn law_section_of_named_heading(content: Seq<char>, name: Seq<char>, sep: Seq<char>)
    requires
        sep.len() > 0,
        text::find(name, sep) is None,
    ensures
        match heading_section(content, name, sep) {
            Some((at, end)) => is_section_of(
                note_headings(content),
                name,
                0,
                text::byte_len(content),
                at,
                end,
            ),
            None => forall|j: int|
                0 <= j < note_headings(content).len() && (#[trigger] note_headings(
                    content,
                )[j]).offset < text::byte_len(content) ==> !text::eq_ignore_ascii_case(
                    note_headings(content)[j].text,
                    text::trim(name),
                ),
        },
{
    let names = parts_of(name, sep);
    reveal_with_fuel(text::split, 2);
    assert(names =~= seq![name]);
    law_section_of_heading(note_headings(content), names, 0, text::byte_len(content));
}

proof fn lemma_headings_chosen(
    content: Seq<char>,
    events: Seq<(EventView, usize, usize)>,
    k: nat,
) -> (ks: (Seq<int>, int))
    requires
        k <= events.len(),
    ensures
        ({
            let (done, open) = headings_of(content, events, k);
            &&& is_choice(ks.0, k)
            &&& ks.0.len() == done.len()
            &&& forall|h: int|
                0 <= h < ks.0.len() ==> {
                    let i = #[trigger] ks.0[h];
                    &&& events[i].0 is HeadingStart
                    &&& done[h].level == events[i].0->HeadingStart_0
                    &&& done[h].offset == events[i].1
                    &&& done[h].line == line_at(content, events[i].1 as int)
                }
            &&& open matches Some((level, text, offset)) ==> {
                &&& 0 <= ks.1 < k
                &&& events[ks.1].0 is HeadingStart
                &&& level == events[ks.1].0->HeadingStart_0
                &&& offset == events[ks.1].1
                &&& ks.0.len() > 0 ==> ks.0.last() < ks.1
            }
        }),
    decreases k,
{
    if k == 0 {
        (Seq::empty(), 0)
    } else {
        let n = (k - 1) as nat;
        let before = lemma_headings_chosen(content, events, n);
        let (done, open) = headings_of(content, events, n);
        let (event, start, end) = events[k - 1];
        if event is HeadingStart {
            (before.0, k - 1)
        } else if event is HeadingEnd && open is Some {
            let r = before.0.push(before.1);
            assert forall|i: int, j: int| 0 <= i < j < r.len() implies #[trigger] r[i]
                < #[trigger] r[j] by {
                if j == before.0.len() {
                    if i < before.0.len() - 1 {
                        assert(before.0[i] < before.0[before.0.len() - 1]);
                    }
                }
            }
            (r, 0)
        } else {
            before
        }
    }
}

/// The headings come in the order in which they stand in the note, each with its own level and
/// place, and nothing else is among them.
pub proof fn law_headings_in_order(content: Seq<char>)
    ensures
        exists|ks: Seq<int>| #[trigger]
            is_choice(ks, note_events(content).len()) && {
                &&& ks.len() == note_headings(content).len()
                &&& forall|h: int|
                    0 <= h < ks.len() ==> {
                        let e = note_events(content)[#[trigger] ks[h]];
                        &&& e.0 is HeadingStart
                        &&& note_headings(content)[h].level == e.0->HeadingStart_0
                        &&& note_headings(content)[h].offset == e.1
                    }
            },
{
    let ks = lemma_headings_chosen(content, note_events(content), note_events(content).len());
    assert(is_choice(ks.0, note_events(content).len()));
}

} // verus!
