//! Content patching: insert, replace, and append operations on note bodies.
//!
//! A patch names a heading, a block reference or a front matter field, and changes the lines
//! that belong to it. Fenced code and front matter are not searched for headings and blocks.
use crate::error::{ErrorView, VaultError};
use crate::frontmatter;
use crate::models::{PatchOperation, PatchRequest, PatchTargetType};
use crate::text;
use crate::yaml;
use crate::yaml::{YamlKind, YamlView};
use vstd::prelude::*;

verus! {

// ---------------------------------------------------------------------------
// Lines outside fenced code and front matter
// ---------------------------------------------------------------------------

/// What the lines before some line leave open.
pub enum Region {
    /// Nothing was read yet.
    Start,
    /// The front matter at the start of the note.
    FrontMatter,
    /// Ordinary lines.
    Body,
    /// A code block whose fence is made of `width` characters `mark`.
    Fence { mark: char, width: nat },
}

/// Number of characters `c` at the start of a text.
pub open spec fn leading(s: Seq<char>, c: char) -> nat
    decreases s.len(),
{
    if s.len() > 0 && s[0] == c {
        1 + leading(s.drop_first(), c)
    } else {
        0
    }
}

/// A line of three dashes, with white space around them or not.
pub open spec fn is_dashes(line: Seq<char>) -> bool {
    text::trim(line) == seq!['-', '-', '-']
}

/// Whether a line opens a code block.
pub open spec fn opens_fence(line: Seq<char>) -> bool {
    let t = text::trim_start(line);
    leading(t, '`') >= 3 || leading(t, '~') >= 3
}

/// Whether a line closes a code block with this fence.
pub open spec fn closes_fence(line: Seq<char>, mark: char, width: nat) -> bool {
    let t = text::trim(line);
    t.len() > 0 && t.len() >= width && leading(t, mark) == t.len()
}

/// What a line leaves open.
pub open spec fn region_after(region: Region, line: Seq<char>) -> Region {
    match region {
        Region::FrontMatter => if is_dashes(line) {
            Region::Body
        } else {
            Region::FrontMatter
        },
        Region::Fence { mark, width } => if closes_fence(line, mark, width) {
            Region::Body
        } else {
            region
        },
        _ => if region is Start && is_dashes(line) {
            Region::FrontMatter
        } else if opens_fence(line) {
            let t = text::trim_start(line);
            Region::Fence { mark: t[0], width: leading(t, t[0]) }
        } else {
            Region::Body
        },
    }
}

/// What the first `k` lines leave open.
pub open spec fn region_at(lines: Seq<Seq<char>>, k: nat) -> Region
    decreases k,
{
    if k == 0 {
        Region::Start
    } else {
        region_after(region_at(lines, (k - 1) as nat), lines[k - 1])
    }
}

/// Whether line `k` lies outside front matter and fenced code, and is no fence itself.
pub open spec fn is_prose(lines: Seq<Seq<char>>, k: nat) -> bool {
    match region_at(lines, k) {
        Region::Start => !is_dashes(lines[k as int]) && !opens_fence(lines[k as int]),
        Region::Body => !opens_fence(lines[k as int]),
        _ => false,
    }
}

/// The lines of a note without their line ends.
pub open spec fn note_lines(content: Seq<char>) -> Seq<Seq<char>> {
    text::raw_lines(content).map_values(|l: Seq<char>| text::strip_eol(l))
}

/// Lines that were split, without their line ends.
spec fn stripped(lines: Seq<Vec<char>>) -> Seq<Seq<char>> {
    text::texts(lines).map_values(|l: Seq<char>| text::strip_eol(l))
}

/// Counts as [`leading`].
fn count_leading(s: &[char], c: char) -> (r: usize)
    ensures
        r == leading(s@, c),
        r <= s.len(),
{
    let mut i: usize = 0;
    assert(s@.skip(0) == s@);
    while i < s.len() && s[i] == c
        invariant
            i <= s.len(),
            leading(s@, c) == i + leading(s@.skip(i as int), c),
        decreases s.len() - i,
    {
        assert(s@.skip(i as int).drop_first() == s@.skip(i as int + 1));
        i = i + 1;
    }
    i
}

proof fn lemma_leading(s: Seq<char>, c: char)
    ensures
        leading(s, c) <= s.len(),
        leading(s, c) > 0 ==> s[0] == c,
    decreases s.len(),
{
    if s.len() > 0 && s[0] == c {
        lemma_leading(s.drop_first(), c);
    }
}

/// Computes [`is_dashes`].
fn line_is_dashes(line: &[char]) -> (r: bool)
    ensures
        r == is_dashes(line@),
{
    let dashes: [char; 3] = ['-', '-', '-'];
    assert(dashes@ == seq!['-', '-', '-']);
    text::same_chars(text::trimmed(line), &dashes)
}

/// Marks the lines that lie outside front matter and fenced code.
fn non_code_lines(lines: &Vec<Vec<char>>) -> (r: Vec<bool>)
    ensures
        r.len() == lines.len(),
        forall|k: int|
            0 <= k < lines.len() ==> #[trigger] r[k] == is_prose(
                stripped(lines@),
                k as nat,
            ),
{
    let ghost ls = stripped(lines@);
    let mut r: Vec<bool> = Vec::new();
    let mut in_front: bool = false;
    let mut in_code: bool = false;
    let mut mark: char = '`';
    let mut width: usize = 0;
    let mut k: usize = 0;
    while k < lines.len()
        invariant
            k <= lines.len(),
            ls == stripped(lines@),
            r.len() == k,
            forall|j: int| 0 <= j < k ==> #[trigger] r[j] == is_prose(ls, j as nat),
            in_front ==> region_at(ls, k as nat) is FrontMatter,
            in_code ==> region_at(ls, k as nat) == (Region::Fence { mark, width: width as nat }),
            !in_front && !in_code && k == 0 ==> region_at(ls, k as nat) is Start,
            !in_front && !in_code && k > 0 ==> region_at(ls, k as nat) is Body,
            !(in_front && in_code),
        decreases lines.len() - k,
    {
        let line = text::without_eol(&lines[k]);
        assert(line@ == ls[k as int]);
        assert(region_at(ls, (k + 1) as nat) == region_after(region_at(ls, k as nat), line@));
        if in_front {
            if line_is_dashes(line) {
                in_front = false;
            }
            r.push(false);
        } else if in_code {
            let t = text::trimmed(line);
            let n = count_leading(t, mark);
            if t.len() > 0 && t.len() >= width && n == t.len() {
                in_code = false;
            }
            r.push(false);
        } else if k == 0 && line_is_dashes(line) {
            in_front = true;
            r.push(false);
        } else {
            let left = text::trimmed_start(line);
            let ticks = count_leading(left, '`');
            let tildes = count_leading(left, '~');
            proof {
                lemma_leading(left@, '`');
                lemma_leading(left@, '~');
            }
            if ticks >= 3 || tildes >= 3 {
                mark = left[0];
                width = if ticks >= 3 {
                    ticks
                } else {
                    tildes
                };
                in_code = true;
                r.push(false);
            } else {
                r.push(true);
            }
        }
        k = k + 1;
    }
    r
}

// ---------------------------------------------------------------------------
// Headings
// ---------------------------------------------------------------------------

/// A heading of a note: its level, its text and the line it stands on.
pub struct HeadingAt {
    pub level: nat,
    pub text: Seq<char>,
    pub line: nat,
}

/// A heading found in a note.
#[derive(Debug)]
pub struct ParsedHeading {
    pub level: u8,
    pub text: String,
    pub line_idx: usize,
}

impl View for ParsedHeading {
    type V = HeadingAt;

    open spec fn view(&self) -> HeadingAt {
        HeadingAt { level: self.level as nat, text: self.text@, line: self.line_idx as nat }
    }
}

/// The headings that a list holds.
pub open spec fn heading_views(v: Seq<ParsedHeading>) -> Seq<HeadingAt> {
    v.map_values(|h: ParsedHeading| h@)
}

/// Level and text of an ATX heading: one to six `#`, then nothing or a space and the text.
pub open spec fn heading_of(line: Seq<char>) -> Option<(nat, Seq<char>)> {
    let t = text::trim_start(line);
    let n = leading(t, '#');
    if 1 <= n <= 6 && (t.len() == n || t[n as int] == ' ') {
        Some((n, text::trim(t.skip(n as int))))
    } else {
        None
    }
}

/// The headings among the first `k` lines, outside front matter and fenced code.
pub open spec fn headings_among(lines: Seq<Seq<char>>, k: nat) -> Seq<HeadingAt>
    decreases k,
{
    if k == 0 {
        Seq::empty()
    } else {
        let line = (k - 1) as nat;
        let before = headings_among(lines, line);
        match heading_of(lines[k - 1]) {
            Some((level, text)) => if is_prose(lines, line) {
                before.push(HeadingAt { level, text, line })
            } else {
                before
            },
            None => before,
        }
    }
}

/// The headings of a note.
pub open spec fn note_headings(content: Seq<char>) -> Seq<HeadingAt> {
    headings_among(note_lines(content), note_lines(content).len())
}

/// Place, from `i` on, of the first heading on the lines `from..to` with this text in any
/// ASCII case; the number of headings if there is none.
pub open spec fn named_from(
    hs: Seq<HeadingAt>,
    i: nat,
    from: nat,
    to: nat,
    name: Seq<char>,
) -> nat
    decreases hs.len() - i,
{
    if i >= hs.len() {
        hs.len()
    } else if from <= hs[i as int].line < to && text::eq_ignore_ascii_case(
        hs[i as int].text,
        name,
    ) {
        i
    } else {
        named_from(hs, i + 1, from, to, name)
    }
}

/// Line, among the headings from `i` on, of the first one below line `line` that is of this
/// level or a higher one; `total` if there is none.
pub open spec fn section_end_from(
    hs: Seq<HeadingAt>,
    i: nat,
    line: nat,
    level: nat,
    total: nat,
) -> nat
    decreases hs.len() - i,
{
    if i >= hs.len() {
        total
    } else if hs[i as int].line > line && hs[i as int].level <= level {
        hs[i as int].line
    } else {
        section_end_from(hs, i + 1, line, level, total)
    }
}

/// The line of the heading that a path of names leads to and the line at which its section
/// ends. Each name is looked up in the section of the one before it: on the lines
/// `from..to`, which are the section of the heading on line `at`.
pub open spec fn walk_headings(
    hs: Seq<HeadingAt>,
    names: Seq<Seq<char>>,
    at: nat,
    from: nat,
    to: nat,
    total: nat,
) -> Option<(nat, nat)>
    decreases names.len(),
{
    if names.len() == 0 {
        Some((at, to))
    } else {
        let i = named_from(hs, 0, from, to, text::trim(names[0]));
        if i < hs.len() {
            let h = hs[i as int];
            let end = section_end_from(hs, 0, h.line, h.level, total);
            walk_headings(
                hs,
                names.drop_first(),
                h.line,
                h.line + 1,
                if end < to {
                    end
                } else {
                    to
                },
                total,
            )
        } else {
            None
        }
    }
}

/// The line of the heading that `target`, a path with `::` between its names, leads to and the
/// line at which its section ends.
pub open spec fn heading_range(content: Seq<char>, target: Seq<char>) -> Option<(nat, nat)> {
    let total = note_lines(content).len();
    walk_headings(note_headings(content), text::split(target, seq![':', ':']), 0, 0, total, total)
}

/// A text that ends with a line feed, unless it is empty.
pub open spec fn with_newline(s: Seq<char>) -> Seq<char> {
    if s.len() > 0 && s.last() != '\n' {
        s.push('\n')
    } else {
        s
    }
}

/// A note whose lines `..after` end with the heading line and whose lines `after..end` are its
/// section, after new content was put at the start of the section, at its end or in its place.
pub open spec fn patched_section(
    lines: Seq<Seq<char>>,
    after: int,
    end: int,
    operation: PatchOperation,
    new: Seq<char>,
) -> Seq<char> {
    let head = text::concat(lines.take(after));
    let section = text::concat(lines.subrange(after, end));
    let tail = text::concat(lines.skip(end));
    match operation {
        PatchOperation::Prepend => with_newline(with_newline(head) + new) + section + tail,
        PatchOperation::Append => with_newline(with_newline(head + section) + new) + tail,
        PatchOperation::Replace => if end < lines.len() {
            with_newline(with_newline(head) + new) + tail
        } else {
            with_newline(head) + new
        },
    }
}

/// A note after the section of a heading was patched; nothing if there is no such heading.
pub open spec fn heading_patch(
    content: Seq<char>,
    operation: PatchOperation,
    target: Seq<char>,
    new: Seq<char>,
) -> Option<Seq<char>> {
    match heading_range(content, target) {
        Some((line, end)) => Some(
            patched_section(text::raw_lines(content), line as int + 1, end as int, operation, new),
        ),
        None => None,
    }
}

/// The error for a target that is not in the note.
pub open spec fn target_missing(path: Seq<char>, kind: Seq<char>, target: Seq<char>) -> ErrorView {
    ErrorView::PatchTargetNotFound { path, target_type: kind, target }
}

/// A patched note, or the error for a missing target.
pub open spec fn or_missing(
    patched: Option<Seq<char>>,
    path: Seq<char>,
    kind: Seq<char>,
    target: Seq<char>,
) -> Result<Seq<char>, ErrorView> {
    match patched {
        Some(t) => Ok(t),
        None => Err(target_missing(path, kind, target)),
    }
}

/// Parses an ATX heading line into its level and its text.
pub fn parse_heading(line: &[char]) -> (r: Option<(u8, String)>)
    ensures
        match r {
            Some((level, t)) => heading_of(line@) == Some((level as nat, t@)),
            None => heading_of(line@) is None,
        },
{
    let t = text::trimmed_start(line);
    let n = count_leading(t, '#');
    if n < 1 || n > 6 {
        return None;
    }
    if n < t.len() && t[n] != ' ' {
        return None;
    }
    let rest = vstd::slice::slice_subrange(t, n, t.len());
    assert(rest@ == t@.skip(n as int));
    Some((n as u8, text::from_chars(text::trimmed(rest))))
}

/// Collects the headings among lines that were split.
fn headings_of_lines(lines: &Vec<Vec<char>>) -> (r: Vec<ParsedHeading>)
    ensures
        heading_views(r@) == headings_among(stripped(lines@), lines.len() as nat),
        forall|i: int| 0 <= i < r.len() ==> (#[trigger] r[i]).line_idx < lines.len(),
{
    let prose = non_code_lines(lines);
    let ghost ls = stripped(lines@);
    let mut r: Vec<ParsedHeading> = Vec::new();
    let mut k: usize = 0;
    while k < lines.len()
        invariant
            k <= lines.len(),
            prose.len() == lines.len(),
            ls == stripped(lines@),
            forall|j: int| 0 <= j < lines.len() ==> #[trigger] prose[j] == is_prose(ls, j as nat),
            heading_views(r@) == headings_among(ls, k as nat),
            forall|i: int| 0 <= i < r.len() ==> (#[trigger] r[i]).line_idx < k,
        decreases lines.len() - k,
    {
        let ghost before = r@;
        let line = text::without_eol(&lines[k]);
        assert(line@ == ls[k as int]);
        if prose[k] {
            if let Some((level, text)) = parse_heading(line) {
                r.push(ParsedHeading { level, text, line_idx: k });
                assert(heading_views(r@) == heading_views(before).push(r@.last()@));
            }
        }
        k = k + 1;
    }
    r
}

/// Collects all headings outside fenced code blocks and front matter.
pub fn find_headings(content: &str) -> (r: Vec<ParsedHeading>)
    ensures
        heading_views(r@) == note_headings(content@),
        forall|i: int| 0 <= i < r.len() ==> (#[trigger] r[i]).line_idx < note_lines(content@).len(),
{
    let chars = text::to_chars(content);
    let lines = text::split_lines(&chars);
    headings_of_lines(&lines)
}

/// Walks a path of names with `::` between them; gives the line of the heading that it leads to
/// and the line at which its section ends.
fn resolve_heading_range(headings: &Vec<ParsedHeading>, target: &str, total: usize) -> (r: Option<
    (usize, usize),
>)
    requires
        forall|i: int| 0 <= i < headings.len() ==> (#[trigger] headings[i]).line_idx < total,
    ensures
        match r {
            Some((line, end)) => line < end <= total && walk_headings(
                heading_views(headings@),
                text::split(target@, seq![':', ':']),
                0,
                0,
                total as nat,
                total as nat,
            ) == Some((line as nat, end as nat)),
            None => walk_headings(
                heading_views(headings@),
                text::split(target@, seq![':', ':']),
                0,
                0,
                total as nat,
                total as nat,
            ) is None,
        },
{
    let target_chars = text::to_chars(target);
    let sep: [char; 2] = [':', ':'];
    assert(sep@ == seq![':', ':']);
    let names = text::split_on(&target_chars, &sep);
    let ghost hs = heading_views(headings@);
    let ghost all = text::texts(names@);
    let ghost whole = walk_headings(hs, all, 0, 0, total as nat, total as nat);
    let mut at: usize = 0;
    let mut from: usize = 0;
    let mut to: usize = total;
    let mut k: usize = 0;
    assert(all.skip(0) == all);
    while k < names.len()
        invariant
            k <= names.len(),
            all == text::texts(names@),
            all == text::split(target@, seq![':', ':']),
            hs == heading_views(headings@),
            whole == walk_headings(hs, all, 0, 0, total as nat, total as nat),
            forall|i: int| 0 <= i < headings.len() ==> (#[trigger] headings[i]).line_idx < total,
            to <= total,
            k > 0 ==> at < from <= to && from == at + 1,
            whole == walk_headings(
                hs,
                all.skip(k as int),
                at as nat,
                from as nat,
                to as nat,
                total as nat,
            ),
        decreases names.len() - k,
    {
        let name = text::trimmed(&names[k]);
        assert(all.skip(k as int)[0] == names@[k as int]@);
        assert(all.skip(k as int).drop_first() == all.skip(k as int + 1));
        let mut i: usize = 0;
        let mut found: bool = false;
        while i < headings.len() && !found
            invariant
                i <= headings.len(),
                hs == heading_views(headings@),
                found ==> i < headings.len(),
                named_from(hs, 0, from as nat, to as nat, name@) == if found {
                    i as nat
                } else {
                    named_from(hs, i as nat, from as nat, to as nat, name@)
                },
                found ==> from <= headings[i as int].line_idx < to,
            decreases headings.len() - i + if found { 0int } else { 1int },
        {
            let h = &headings[i];
            assert(hs[i as int] == h@);
            if h.line_idx >= from && h.line_idx < to {
                let t = text::to_chars(&h.text);
                if text::same_ignore_ascii_case(&t, name) {
                    found = true;
                } else {
                    i = i + 1;
                }
            } else {
                i = i + 1;
            }
        }
        if !found {
            return None;
        }
        let h = &headings[i];
        assert(hs[i as int] == h@);
        let line = h.line_idx;
        let level = h.level;
        let mut end: usize = total;
        let mut j: usize = 0;
        let mut closed: bool = false;
        while j < headings.len() && !closed
            invariant
                j <= headings.len(),
                hs == heading_views(headings@),
                forall|i: int|
                    0 <= i < headings.len() ==> (#[trigger] headings[i]).line_idx < total,
                line < end <= total,
                section_end_from(hs, 0, line as nat, level as nat, total as nat) == if closed {
                    end as nat
                } else {
                    section_end_from(hs, j as nat, line as nat, level as nat, total as nat)
                },
                !closed ==> end == total,
            decreases headings.len() - j + if closed { 0int } else { 1int },
        {
            let n = &headings[j];
            assert(hs[j as int] == n@);
            if n.line_idx > line && n.level <= level {
                end = n.line_idx;
                closed = true;
            } else {
                j = j + 1;
            }
        }
        at = line;
        from = line + 1;
        to = if end < to {
            end
        } else {
            to
        };
        k = k + 1;
    }
    Some((at, to))
}

/// Adds a line feed to a text that has none at its end, unless the text is empty.
fn ensure_trailing_newline(s: &mut Vec<char>)
    ensures
        final(s)@ == with_newline(old(s)@),
{
    let n = s.len();
    if n > 0 && s[n - 1] != '\n' {
        s.push('\n');
    }
}

/// Patches the section of a heading.
fn patch_heading(content: &str, request: &PatchRequest, path: &str) -> (r: Result<
    String,
    VaultError,
>)
    ensures
        crate::error::text_result(r) == or_missing(
            heading_patch(content@, request.operation, request.target@, request.content@),
            path@,
            "heading"@,
            request.target@,
        ),
{
    let chars = text::to_chars(content);
    let lines = text::split_lines(&chars);
    let headings = headings_of_lines(&lines);
    match resolve_heading_range(&headings, &request.target, lines.len()) {
        None => Err(
            VaultError::PatchTargetNotFound {
                path: path.to_owned(),
                target_type: "heading".to_owned(),
                target: request.target.clone(),
            },
        ),
        Some((line, end)) => {
            let new = text::to_chars(&request.content);
            let after = line + 1;
            let total = lines.len();
            let ghost raw = text::texts(lines@);
            let mut out: Vec<char> = Vec::new();
            text::append_parts(&mut out, &lines, 0, after);
            proof {
                assert(raw.subrange(0, after as int) == raw.take(after as int));
                assert(raw.subrange(end as int, total as int) == raw.skip(end as int));
                assert(out@ == text::concat(raw.take(after as int)));
            }
            match request.operation {
                PatchOperation::Prepend => {
                    ensure_trailing_newline(&mut out);
                    text::append_chars(&mut out, &new);
                    ensure_trailing_newline(&mut out);
                    text::append_parts(&mut out, &lines, after, end);
                    text::append_parts(&mut out, &lines, end, total);
                },
                PatchOperation::Append => {
                    text::append_parts(&mut out, &lines, after, end);
                    ensure_trailing_newline(&mut out);
                    text::append_chars(&mut out, &new);
                    ensure_trailing_newline(&mut out);
                    text::append_parts(&mut out, &lines, end, total);
                },
                PatchOperation::Replace => {
                    ensure_trailing_newline(&mut out);
                    text::append_chars(&mut out, &new);
                    if end < total {
                        ensure_trailing_newline(&mut out);
                    }
                    text::append_parts(&mut out, &lines, end, total);
                    assert(end >= total ==> raw.skip(end as int).len() == 0);
                },
            }
            Ok(text::from_chars(&out))
        },
    }
}

// ---------------------------------------------------------------------------
// Block references
// ---------------------------------------------------------------------------

/// The reference to a block as it stands in a note.
pub open spec fn block_marker(id: Seq<char>) -> Seq<char> {
    seq!['^'] + id
}

/// Whether a line ends with the reference to a block, alone or after a space.
pub open spec fn carries_block(line: Seq<char>, id: Seq<char>) -> bool {
    let t = text::trim_end(line);
    let m = block_marker(id);
    m.is_suffix_of(t) && (t.len() == m.len() || t[t.len() - m.len() - 1] == ' ')
}

/// The first line from `k` on, outside front matter and fenced code, that ends with the
/// reference to a block; the number of lines if there is none.
pub open spec fn block_line_from(lines: Seq<Seq<char>>, k: nat, id: Seq<char>) -> nat
    decreases lines.len() - k,
{
    if k >= lines.len() {
        lines.len()
    } else if is_prose(lines, k) && carries_block(lines[k as int], id) {
        k
    } else {
        block_line_from(lines, k + 1, id)
    }
}

/// The name of a block, written with its `^` or without.
pub open spec fn block_id(target: Seq<char>) -> Seq<char> {
    if target.len() > 0 && target[0] == '^' {
        target.skip(1)
    } else {
        target
    }
}

/// The line without the carriage returns and line feeds at its end.
pub open spec fn strip_breaks(line: Seq<char>) -> Seq<char>
    decreases line.len(),
{
    if line.len() > 0 && (line.last() == '\n' || line.last() == '\r') {
        strip_breaks(line.drop_last())
    } else {
        line
    }
}

/// A note after new content was put before the block on line `k`, after it, or in place of the
/// text in front of its reference.
pub open spec fn patched_block(
    lines: Seq<Seq<char>>,
    k: int,
    operation: PatchOperation,
    id: Seq<char>,
    new: Seq<char>,
) -> Seq<char> {
    let head = text::concat(lines.take(k));
    let line = lines[k];
    let tail = text::concat(lines.skip(k + 1));
    match operation {
        PatchOperation::Prepend => with_newline(head + new) + line + tail,
        PatchOperation::Append => with_newline(with_newline(head + line) + new) + tail,
        PatchOperation::Replace => {
            let bare = strip_breaks(line);
            let at = text::rfind(bare, block_marker(id))->0 as int;
            let lead = if new.len() > 0 {
                new.push(' ')
            } else {
                new
            };
            head + lead + bare.skip(at) + line.skip(bare.len() as int) + tail
        },
    }
}

/// A note after a block was patched; nothing if there is no such block.
pub open spec fn block_patch(
    content: Seq<char>,
    operation: PatchOperation,
    target: Seq<char>,
    new: Seq<char>,
) -> Option<Seq<char>> {
    let id = block_id(target);
    let k = block_line_from(note_lines(content), 0, id);
    if k < note_lines(content).len() {
        Some(patched_block(text::raw_lines(content), k as int, operation, id, new))
    } else {
        None
    }
}

proof fn lemma_strip_breaks(s: Seq<char>)
    ensures
        strip_breaks(s).len() <= s.len(),
        strip_breaks(s) == s.take(strip_breaks(s).len() as int),
        forall|i: int|
            strip_breaks(s).len() <= i < s.len() ==> (#[trigger] s[i] == '\n' || s[i] == '\r'),
    decreases s.len(),
{
    if s.len() > 0 && (s.last() == '\n' || s.last() == '\r') {
        lemma_strip_breaks(s.drop_last());
        let n = strip_breaks(s).len() as int;
        assert(s.drop_last().take(n) == s.take(n));
        assert forall|i: int| n <= i < s.len() implies (#[trigger] s[i] == '\n' || s[i] == '\r') by {
            if i < s.len() - 1 {
                assert(s.drop_last()[i] == s[i]);
            }
        }
    } else {
        assert(s.take(s.len() as int) == s);
    }
}

/// A line that ends with the reference to a block holds the reference before its line end.
proof fn lemma_block_reference_found(line: Seq<char>, id: Seq<char>)
    requires
        carries_block(text::strip_eol(line), id),
    ensures
        text::rfind(strip_breaks(line), block_marker(id)) is Some,
{
    let l = text::strip_eol(line);
    let t = text::trim_end(l);
    let m = block_marker(id);
    let bare = strip_breaks(line);
    text::lemma_trim_end(l);
    lemma_strip_breaks(line);
    assert(l == line.take(l.len() as int));
    assert(t == line.take(t.len() as int));
    assert(t.len() <= bare.len()) by {
        if t.len() > bare.len() {
            assert(t.last() == line[t.len() - 1]);
        }
    }
    let i = t.len() - m.len();
    assert(bare.subrange(i, i + m.len()) == t.subrange(i, t.len() as int));
    text::lemma_rfind_some(bare, m, i);
}

/// Computes [`strip_breaks`].
pub fn without_breaks(line: &[char]) -> (r: &[char])
    ensures
        r@ == strip_breaks(line@),
{
    let mut n: usize = line.len();
    assert(line@.take(n as int) == line@);
    while n > 0 && (line[n - 1] == '\n' || line[n - 1] == '\r')
        invariant
            n <= line.len(),
            strip_breaks(line@) == strip_breaks(line@.take(n as int)),
        decreases n,
    {
        assert(line@.take(n as int).drop_last() == line@.take(n as int - 1));
        n = n - 1;
    }
    vstd::slice::slice_subrange(line, 0, n)
}

/// The characters of the reference to a block.
fn marker_chars(id: &[char]) -> (r: Vec<char>)
    ensures
        r@ == block_marker(id@),
{
    let mut m: Vec<char> = Vec::new();
    m.push('^');
    text::append_chars(&mut m, id);
    m
}

/// Computes [`carries_block`].
fn line_carries_block(line: &[char], id: &[char]) -> (r: bool)
    ensures
        r == carries_block(line@, id@),
{
    let t = text::trimmed_end(line);
    let m = marker_chars(id);
    if !text::has_suffix(t, &m) {
        return false;
    }
    t.len() == m.len() || t[t.len() - m.len() - 1] == ' '
}

/// Finds the line of a block among lines that were split.
fn block_line_of_lines(lines: &Vec<Vec<char>>, id: &[char]) -> (r: Option<usize>)
    ensures
        match r {
            Some(k) => k < lines.len() && block_line_from(stripped(lines@), 0, id@) == k
                && carries_block(stripped(lines@)[k as int], id@),
            None => block_line_from(stripped(lines@), 0, id@) == lines.len(),
        },
{
    let prose = non_code_lines(lines);
    let ghost ls = stripped(lines@);
    let mut k: usize = 0;
    while k < lines.len()
        invariant
            k <= lines.len(),
            prose.len() == lines.len(),
            ls == stripped(lines@),
            forall|j: int| 0 <= j < lines.len() ==> #[trigger] prose[j] == is_prose(ls, j as nat),
            block_line_from(ls, 0, id@) == block_line_from(ls, k as nat, id@),
        decreases lines.len() - k,
    {
        let line = text::without_eol(&lines[k]);
        assert(line@ == ls[k as int]);
        if prose[k] && line_carries_block(line, id) {
            return Some(k);
        }
        k = k + 1;
    }
    None
}

/// Finds the first line (outside code blocks and front matter) that ends with `^` and the name
/// of the block.
pub fn find_block_ref_line(content: &str, block: &str) -> (r: Option<usize>)
    ensures
        match r {
            Some(k) => k < note_lines(content@).len() && block_line_from(
                note_lines(content@),
                0,
                block@,
            ) == k,
            None => block_line_from(note_lines(content@), 0, block@) == note_lines(content@).len(),
        },
{
    let chars = text::to_chars(content);
    let lines = text::split_lines(&chars);
    let id = text::to_chars(block);
    block_line_of_lines(&lines, &id)
}

/// Patches the line of a block.
fn patch_block(content: &str, request: &PatchRequest, path: &str) -> (r: Result<
    String,
    VaultError,
>)
    ensures
        crate::error::text_result(r) == or_missing(
            block_patch(content@, request.operation, request.target@, request.content@),
            path@,
            "block"@,
            request.target@,
        ),
{
    let chars = text::to_chars(content);
    let lines = text::split_lines(&chars);
    let target = text::to_chars(&request.target);
    let id: &[char] = if target.len() > 0 && target[0] == '^' {
        vstd::slice::slice_subrange(&target, 1, target.len())
    } else {
        vstd::slice::slice_subrange(&target, 0, target.len())
    };
    assert(id@ == block_id(request.target@));
    match block_line_of_lines(&lines, id) {
        None => Err(
            VaultError::PatchTargetNotFound {
                path: path.to_owned(),
                target_type: "block".to_owned(),
                target: request.target.clone(),
            },
        ),
        Some(k) => {
            let new = text::to_chars(&request.content);
            let total = lines.len();
            let ghost raw = text::texts(lines@);
            let line: &[char] = &lines[k];
            let mut out: Vec<char> = Vec::new();
            text::append_parts(&mut out, &lines, 0, k);
            proof {
                assert(line@ == raw[k as int]);
                assert(raw.subrange(0, k as int) == raw.take(k as int));
                assert(raw.subrange(k as int + 1, total as int) == raw.skip(k as int + 1));
                assert(out@ == text::concat(raw.take(k as int)));
            }
            match request.operation {
                PatchOperation::Prepend => {
                    text::append_chars(&mut out, &new);
                    ensure_trailing_newline(&mut out);
                    text::append_chars(&mut out, line);
                    text::append_parts(&mut out, &lines, k + 1, total);
                },
                PatchOperation::Append => {
                    text::append_chars(&mut out, line);
                    ensure_trailing_newline(&mut out);
                    text::append_chars(&mut out, &new);
                    ensure_trailing_newline(&mut out);
                    text::append_parts(&mut out, &lines, k + 1, total);
                },
                PatchOperation::Replace => {
                    let bare = without_breaks(line);
                    let marker = marker_chars(id);
                    proof {
                        lemma_strip_breaks(line@);
                        lemma_block_reference_found(line@, id@);
                        text::lemma_rfind(bare@, marker@);
                    }
                    let at = match text::rfind_in(bare, &marker) {
                        Some(at) => at,
                        None => 0,
                    };
                    if new.len() > 0 {
                        text::append_chars(&mut out, &new);
                        out.push(' ');
                    }
                    text::append_chars(&mut out, vstd::slice::slice_subrange(bare, at, bare.len()));
                    text::append_chars(
                        &mut out,
                        vstd::slice::slice_subrange(line, bare.len(), line.len()),
                    );
                    text::append_parts(&mut out, &lines, k + 1, total);
                    proof {
                        let head = text::concat(raw.take(k as int));
                        let lead = if new@.len() > 0 {
                            new@.push(' ')
                        } else {
                            new@
                        };
                        assert(bare@.subrange(at as int, bare@.len() as int) == bare@.skip(
                            at as int,
                        ));
                        assert(line@.subrange(bare@.len() as int, line@.len() as int) == line@.skip(
                            bare@.len() as int,
                        ));
                        assert(out@ == head + lead + bare@.skip(at as int) + line@.skip(
                            bare@.len() as int,
                        ) + text::concat(raw.skip(k as int + 1)));
                    }
                },
            }
            Ok(text::from_chars(&out))
        },
    }
}

// ---------------------------------------------------------------------------
// Front matter
// ---------------------------------------------------------------------------

/// Where the front matter of a note lies, in bytes.
#[derive(Debug)]
pub struct FrontmatterRange {
    pub yaml_start: usize,
    pub yaml_end: usize,
    pub body_start: usize,
}

/// The first line from `k` on that is made of three dashes; the number of lines if there is none.
pub open spec fn dashes_from(lines: Seq<Seq<char>>, k: nat) -> nat
    decreases lines.len() - k,
{
    if k >= lines.len() {
        lines.len()
    } else if is_dashes(lines[k as int]) {
        k
    } else {
        dashes_from(lines, k + 1)
    }
}

/// The line that closes the front matter. Front matter starts with a complete line of three
/// dashes at the very start of the note.
pub open spec fn front_matter_close(content: Seq<char>) -> Option<nat> {
    let lines = text::raw_lines(content);
    if seq!['-', '-', '-'].is_prefix_of(content) && lines[0].last() == '\n' && is_dashes(lines[0])
        && dashes_from(lines, 1) < lines.len() {
        Some(dashes_from(lines, 1))
    } else {
        None
    }
}

/// The YAML between the two lines of dashes.
pub open spec fn front_matter_yaml(content: Seq<char>, close: nat) -> Seq<char> {
    text::concat(text::raw_lines(content).subrange(1, close as int))
}

/// What follows the front matter.
pub open spec fn front_matter_body(content: Seq<char>, close: nat) -> Seq<char> {
    text::concat(text::raw_lines(content).skip(close as int + 1))
}

/// What new content stands for: the YAML value that it is, or else itself as a string.
pub open spec fn value_or_text(new: Seq<char>) -> YamlView {
    match yaml::yaml_value_of(new) {
        Ok(v) => v,
        Err(_) => YamlView::Str(new),
    }
}

/// A value as text that content can be added to.
pub open spec fn scalar_text(v: YamlView) -> Seq<char> {
    match v {
        YamlView::Str(s) => s,
        YamlView::Bool(b) => if b {
            "true"@
        } else {
            "false"@
        },
        YamlView::Number(n) => n,
        YamlView::Null => Seq::empty(),
        _ => match yaml::yaml_text_of_value(v) {
            Ok(t) => text::trim(t),
            Err(_) => Seq::empty(),
        },
    }
}

/// The value of a field after a patch: content joins a list as an element and any other value
/// as text; `parsed` is what the content stands for.
pub open spec fn patched_value(
    current: Option<YamlView>,
    operation: PatchOperation,
    new: Seq<char>,
    parsed: YamlView,
) -> YamlView {
    match operation {
        PatchOperation::Replace => parsed,
        PatchOperation::Append => match current {
            Some(YamlView::Sequence(items)) => YamlView::Sequence(items.push(parsed)),
            Some(v) => YamlView::Str(scalar_text(v) + new),
            None => YamlView::Str(new),
        },
        PatchOperation::Prepend => match current {
            Some(YamlView::Sequence(items)) => YamlView::Sequence(seq![parsed] + items),
            Some(v) => YamlView::Str(new + scalar_text(v)),
            None => YamlView::Str(new),
        },
    }
}

/// The entries of the front matter after a field was patched. A field that is added to leaves
/// its place and comes back at the end.
pub open spec fn patched_entries(
    entries: Seq<(YamlView, YamlView)>,
    operation: PatchOperation,
    field: Seq<char>,
    new: Seq<char>,
) -> Seq<(YamlView, YamlView)> {
    let key = YamlView::Str(field);
    let value = patched_value(yaml::entry_of(entries, key), operation, new, value_or_text(new));
    if operation == PatchOperation::Replace {
        yaml::with_entry(entries, key, value)
    } else {
        yaml::with_entry(yaml::without_entry(entries, key), key, value)
    }
}

/// YAML without a line of dashes at its start.
pub open spec fn without_document_start(yaml: Seq<char>) -> Seq<char> {
    if seq!['-', '-', '-', '\n'].is_prefix_of(yaml) {
        yaml.skip(4)
    } else if seq!['-', '-', '-', '\r', '\n'].is_prefix_of(yaml) {
        yaml.skip(5)
    } else {
        yaml
    }
}

/// A note made of YAML as its front matter and a body.
pub open spec fn with_front_matter(yaml: Seq<char>, body: Seq<char>) -> Seq<char> {
    seq!['-', '-', '-', '\n'] + with_newline(without_document_start(yaml)) + seq![
        '-',
        '-',
        '-',
        '\n',
    ] + body
}

/// A note after a field of its front matter was patched.
pub open spec fn frontmatter_patch(
    content: Seq<char>,
    operation: PatchOperation,
    field: Seq<char>,
    new: Seq<char>,
    path: Seq<char>,
) -> Result<Seq<char>, ErrorView> {
    match front_matter_close(content) {
        None => Err(target_missing(path, "frontmatter"@, field)),
        Some(close) => {
            let yaml = front_matter_yaml(content, close);
            let entries = if text::trim(yaml).len() == 0 {
                Ok(Seq::empty())
            } else {
                yaml::yaml_mapping_of(yaml)
            };
            match entries {
                Err(message) => Err(ErrorView::FrontmatterParse { path, message }),
                Ok(entries) => match yaml::yaml_text_of_mapping(
                    patched_entries(entries, operation, field, new),
                ) {
                    Err(message) => Err(ErrorView::Other(message)),
                    Ok(yaml) => Ok(with_front_matter(yaml, front_matter_body(content, close))),
                },
            }
        },
    }
}

/// Finds the line that closes the front matter among lines that were split.
fn close_of_lines(content: &Vec<char>, lines: &Vec<Vec<char>>) -> (r: Option<usize>)
    requires
        text::texts(lines@) == text::raw_lines(content@),
    ensures
        match r {
            Some(k) => 0 < k < lines.len() && front_matter_close(content@) == Some(k as nat),
            None => front_matter_close(content@) is None,
        },
{
    let dashes: [char; 3] = ['-', '-', '-'];
    assert(dashes@ == seq!['-', '-', '-']);
    if !text::has_prefix(content, &dashes) {
        return None;
    }
    proof {
        text::lemma_first_line_len(content@);
    }
    let ghost raw = text::raw_lines(content@);
    assert(raw.len() > 0 && raw[0].len() > 0);
    assert(text::texts(lines@)[0] == lines@[0]@);
    let first: &Vec<char> = &lines[0];
    if first[first.len() - 1] != '\n' || !line_is_dashes(first) {
        return None;
    }
    let mut k: usize = 1;
    while k < lines.len()
        invariant
            1 <= k <= lines.len(),
            text::texts(lines@) == raw,
            raw == text::raw_lines(content@),
            seq!['-', '-', '-'].is_prefix_of(content@) && raw[0].last() == '\n' && is_dashes(
                raw[0],
            ),
            dashes_from(raw, 1) == dashes_from(raw, k as nat),
        decreases lines.len() - k,
    {
        assert(raw[k as int] == lines@[k as int]@);
        if line_is_dashes(&lines[k]) {
            return Some(k);
        }
        k = k + 1;
    }
    None
}

/// Detects front matter between lines of dashes at the start of a note: its YAML lies at the
/// bytes `yaml_start..yaml_end`, and the body starts at the byte `body_start`.
pub fn frontmatter_boundaries(content: &str) -> (r: Option<FrontmatterRange>)
    ensures
        match r {
            Some(range) => {
                let lines = text::raw_lines(content@);
                let close = front_matter_close(content@);
                &&& close is Some
                &&& range.yaml_start == text::byte_len(lines[0])
                &&& range.yaml_end == text::byte_len(text::concat(lines.take(close->0 as int)))
                &&& range.body_start == text::byte_len(
                    text::concat(lines.take(close->0 as int + 1)),
                )
            },
            None => front_matter_close(content@) is None,
        },
{
    let bytes = content.as_bytes();
    let size = bytes.len();
    let chars = text::to_chars(content);
    let lines = text::split_lines(&chars);
    match close_of_lines(&chars, &lines) {
        None => None,
        Some(k) => {
            let ghost raw = text::texts(lines@);
            let mut upto_close: Vec<char> = Vec::new();
            text::append_parts(&mut upto_close, &lines, 0, k);
            let mut upto_body: Vec<char> = Vec::new();
            text::append_parts(&mut upto_body, &lines, 0, k + 1);
            proof {
                text::lemma_concat_raw_lines(content@);
                assert(raw.subrange(0, k as int) == raw.take(k as int));
                assert(raw.subrange(0, k as int + 1) == raw.take(k as int + 1));
                assert(upto_close@ == text::concat(raw.take(k as int)));
                assert(upto_body@ == text::concat(raw.take(k as int + 1)));
                lemma_concat_take(raw, 1);
                lemma_concat_take(raw, k as int);
                lemma_concat_take(raw, k as int + 1);
                reveal_with_fuel(text::concat, 2);
                assert(text::concat(raw.take(1)) == raw[0]);
                assert(raw[0] == lines@[0]@);
                assert(size == text::byte_len(content@));
            }
            Some(
                FrontmatterRange {
                    yaml_start: text::byte_count(&lines[0]),
                    yaml_end: text::byte_count(&upto_close),
                    body_start: text::byte_count(&upto_body),
                },
            )
        },
    }
}

proof fn lemma_concat_take(parts: Seq<Seq<char>>, k: int)
    requires
        0 <= k <= parts.len(),
    ensures
        text::concat(parts.take(k)) + text::concat(parts.skip(k)) == text::concat(parts),
        text::byte_len(text::concat(parts.take(k))) <= text::byte_len(text::concat(parts)),
{
    text::lemma_concat_add(parts.take(k), parts.skip(k));
    assert(parts.take(k) + parts.skip(k) == parts);
    text::lemma_byte_len_add(text::concat(parts.take(k)), text::concat(parts.skip(k)));
}

/// The text of a value that content can be added to.
fn yaml_scalar_to_string(kind: YamlKind) -> (r: Vec<char>)
    requires
        !(kind is Sequence),
        kind is Tagged ==> yaml::kind_view(kind) is Tagged,
    ensures
        r@ == scalar_text(yaml::kind_view(kind)),
{
    let whole = match kind {
        YamlKind::Str(s) => return text::to_chars(&s),
        YamlKind::Bool(b) => return text::to_chars(
            if b {
                "true"
            } else {
                "false"
            },
        ),
        YamlKind::Number(n) => return text::to_chars(&n),
        YamlKind::Null | YamlKind::Sequence(_) => return Vec::new(),
        YamlKind::Mapping(m) => yaml::yaml_mapping(m),
        YamlKind::Tagged(t) => t,
    };
    match yaml::value_text(&whole) {
        Ok(t) => {
            let chars = text::to_chars(&t);
            text::copy_chars(text::trimmed(&chars))
        },
        Err(_) => Vec::new(),
    }
}

/// What new content stands for: the YAML value that it is, or else itself as a string.
fn parse_yaml_value(s: &str) -> (r: serde_yaml::Value)
    ensures
        yaml::yaml_view(r) == value_or_text(s@),
{
    match yaml::parse_value(s) {
        Ok(v) => v,
        Err(_) => yaml::yaml_string(s.to_owned()),
    }
}

/// The value of a front matter field after a patch; `parsed` is what the content stands for.
pub fn updated_value(
    current: Option<serde_yaml::Value>,
    operation: PatchOperation,
    content: &str,
    parsed: serde_yaml::Value,
) -> (r: serde_yaml::Value)
    ensures
        yaml::yaml_view(r) == patched_value(
            match current {
                Some(v) => Some(yaml::yaml_view(v)),
                None => None,
            },
            operation,
            content@,
            yaml::yaml_view(parsed),
        ),
{
    if operation == PatchOperation::Replace {
        return parsed;
    }
    let append = operation == PatchOperation::Append;
    match current {
        None => yaml::yaml_string(content.to_owned()),
        Some(v) => match yaml::yaml_kind(v) {
            YamlKind::Sequence(items) => {
                let mut list = items;
                if append {
                    list.push(parsed);
                    assert(yaml::yaml_views(list@) == yaml::yaml_views(items@).push(
                        yaml::yaml_view(parsed),
                    ));
                } else {
                    list.insert(0, parsed);
                    assert(yaml::yaml_views(list@) == seq![yaml::yaml_view(parsed)]
                        + yaml::yaml_views(items@));
                }
                yaml::yaml_sequence(list)
            },
            kind => {
                let old_text = yaml_scalar_to_string(kind);
                let new = text::to_chars(content);
                let mut out: Vec<char> = Vec::new();
                if append {
                    text::append_chars(&mut out, &old_text);
                    text::append_chars(&mut out, &new);
                } else {
                    text::append_chars(&mut out, &new);
                    text::append_chars(&mut out, &old_text);
                }
                assert(out@ == if append {
                    old_text@ + new@
                } else {
                    new@ + old_text@
                });
                yaml::yaml_string(text::from_chars(&out))
            },
        },
    }
}

/// Puts YAML in front of a body as its front matter.
pub fn assemble_front_matter(yaml: &str, body: &str) -> (r: String)
    ensures
        r@ == with_front_matter(yaml@, body@),
{
    let chars = text::to_chars(yaml);
    let unix: [char; 4] = ['-', '-', '-', '\n'];
    let dos: [char; 5] = ['-', '-', '-', '\r', '\n'];
    assert(unix@ == seq!['-', '-', '-', '\n']);
    assert(dos@ == seq!['-', '-', '-', '\r', '\n']);
    let skip: usize = if text::has_prefix(&chars, &unix) {
        4
    } else if text::has_prefix(&chars, &dos) {
        5
    } else {
        0
    };
    let rest = vstd::slice::slice_subrange(&chars, skip, chars.len());
    assert(rest@ == without_document_start(yaml@));
    let mut middle = text::copy_chars(rest);
    ensure_trailing_newline(&mut middle);
    let mut out = text::copy_chars(&unix);
    text::append_chars(&mut out, &middle);
    text::append_chars(&mut out, &unix);
    text::append_chars(&mut out, &text::to_chars(body));
    text::from_chars(&out)
}

/// Patches a field of the front matter.
fn patch_frontmatter(content: &str, request: &PatchRequest, path: &str) -> (r: Result<
    String,
    VaultError,
>)
    ensures
        crate::error::text_result(r) == frontmatter_patch(
            content@,
            request.operation,
            request.target@,
            request.content@,
            path@,
        ),
{
    let chars = text::to_chars(content);
    let lines = text::split_lines(&chars);
    let close = match close_of_lines(&chars, &lines) {
        Some(k) => k,
        None => {
            return Err(
                VaultError::PatchTargetNotFound {
                    path: path.to_owned(),
                    target_type: "frontmatter".to_owned(),
                    target: request.target.clone(),
                },
            );
        },
    };
    let ghost raw = text::texts(lines@);
    let mut yaml_chars: Vec<char> = Vec::new();
    text::append_parts(&mut yaml_chars, &lines, 1, close);
    let mut body_chars: Vec<char> = Vec::new();
    text::append_parts(&mut body_chars, &lines, close + 1, lines.len());
    proof {
        assert(raw.subrange(close as int + 1, lines@.len() as int) == raw.skip(close as int + 1));
        assert(yaml_chars@ == front_matter_yaml(content@, close as nat));
        assert(body_chars@ == front_matter_body(content@, close as nat));
    }
    let mut mapping = if text::trimmed(&yaml_chars).len() == 0 {
        yaml::mapping_new()
    } else {
        match yaml::parse_mapping(&text::from_chars(&yaml_chars)) {
            Ok(m) => m,
            Err(message) => {
                return Err(VaultError::FrontmatterParse { path: path.to_owned(), message });
            },
        }
    };
    let ghost entries = yaml::mapping_view(mapping);
    assert(text::trim(yaml_chars@).len() == 0 ==> entries == Seq::<(YamlView, YamlView)>::empty());
    let parsed = parse_yaml_value(&request.content);
    let value = if request.operation == PatchOperation::Replace {
        parsed
    } else {
        let current = yaml::mapping_remove(&mut mapping, &request.target);
        updated_value(current, request.operation, &request.content, parsed)
    };
    yaml::mapping_insert(&mut mapping, &request.target, value);
    assert(yaml::mapping_view(mapping) == patched_entries(
        entries,
        request.operation,
        request.target@,
        request.content@,
    ));
    match yaml::mapping_text(&mapping) {
        Err(message) => Err(VaultError::Other(message)),
        Ok(yaml) => Ok(assemble_front_matter(&yaml, &text::from_chars(&body_chars))),
    }
}

/// What a patch makes of a note.
pub open spec fn patch_result(
    content: Seq<char>,
    target_type: PatchTargetType,
    operation: PatchOperation,
    target: Seq<char>,
    new: Seq<char>,
    path: Seq<char>,
) -> Result<Seq<char>, ErrorView> {
    match target_type {
        PatchTargetType::Heading => or_missing(
            heading_patch(content, operation, target, new),
            path,
            "heading"@,
            target,
        ),
        PatchTargetType::Block => or_missing(
            block_patch(content, operation, target, new),
            path,
            "block"@,
            target,
        ),
        PatchTargetType::Frontmatter => frontmatter_patch(content, operation, target, new, path),
    }
}

/// Applies a patch operation to note content and gives the modified content.
///
/// `path` is used only for error context.
pub fn apply_patch(content: &str, request: &PatchRequest, path: &str) -> (r: Result<
    String,
    VaultError,
>)
    ensures
        crate::error::text_result(r) == patch_result(
            content@,
            request.target_type,
            request.operation,
            request.target@,
            request.content@,
            path@,
        ),
{
    match request.target_type {
        PatchTargetType::Heading => patch_heading(content, request, path),
        PatchTargetType::Block => patch_block(content, request, path),
        PatchTargetType::Frontmatter => patch_frontmatter(content, request, path),
    }
}

// ---------------------------------------------------------------------------
// Laws
// ---------------------------------------------------------------------------

/// Every heading of a note stands on a line outside front matter and fenced code that is a
/// heading line, and the headings come in the order of their lines.
pub proof fn law_headings_are_prose(lines: Seq<Seq<char>>, k: nat)
    requires
        k <= lines.len(),
    ensures
        forall|i: int|
            0 <= i < headings_among(lines, k).len() ==> {
                let h = #[trigger] headings_among(lines, k)[i];
                &&& h.line < k
                &&& is_prose(lines, h.line)
                &&& heading_of(lines[h.line as int]) == Some((h.level, h.text))
            },
        forall|i: int, j: int|
            0 <= i < j < headings_among(lines, k).len() ==> (#[trigger] headings_among(
                lines,
                k,
            )[i]).line < (#[trigger] headings_among(lines, k)[j]).line,
    decreases k,
{
    if k > 0 {
        law_headings_are_prose(lines, (k - 1) as nat);
    }
}

proof fn lemma_named_from(hs: Seq<HeadingAt>, i: nat, from: nat, to: nat, name: Seq<char>)
    requires
        i <= hs.len(),
    ensures
        i <= named_from(hs, i, from, to, name) <= hs.len(),
        named_from(hs, i, from, to, name) < hs.len() ==> {
            let h = hs[named_from(hs, i, from, to, name) as int];
            from <= h.line < to && text::eq_ignore_ascii_case(h.text, name)
        },
    decreases hs.len() - i,
{
    if i < hs.len() {
        lemma_named_from(hs, i + 1, from, to, name);
    }
}

proof fn lemma_section_end_from(hs: Seq<HeadingAt>, i: nat, line: nat, level: nat, total: nat)
    requires
        i <= hs.len(),
        line < total,
        forall|j: int| 0 <= j < hs.len() ==> (#[trigger] hs[j]).line < total,
        forall|j: int, k: int|
            0 <= j < k < hs.len() ==> (#[trigger] hs[j]).line < (#[trigger] hs[k]).line,
    ensures
        line < section_end_from(hs, i, line, level, total) <= total,
        forall|j: int|
            i <= j < hs.len() && line < (#[trigger] hs[j]).line < section_end_from(
                hs,
                i,
                line,
                level,
                total,
            ) ==> hs[j].level > level,
    decreases hs.len() - i,
{
    if i < hs.len() && !(hs[i as int].line > line && hs[i as int].level <= level) {
        lemma_section_end_from(hs, i + 1, line, level, total);
    }
}

proof fn lemma_walk_headings(
    hs: Seq<HeadingAt>,
    names: Seq<Seq<char>>,
    at: nat,
    from: nat,
    to: nat,
    total: nat,
)
    requires
        to <= total,
        names.len() > 0,
        forall|j: int| 0 <= j < hs.len() ==> (#[trigger] hs[j]).line < total,
        forall|j: int, k: int|
            0 <= j < k < hs.len() ==> (#[trigger] hs[j]).line < (#[trigger] hs[k]).line,
    ensures
        walk_headings(hs, names, at, from, to, total) matches Some((line, end)) ==> {
            &&& from <= line < end <= to
            &&& exists|i: int|
                {
                    &&& 0 <= i < hs.len()
                    &&& (#[trigger] hs[i]).line == line
                    &&& text::eq_ignore_ascii_case(hs[i].text, text::trim(names.last()))
                    &&& forall|j: int|
                        0 <= j < hs.len() && line < (#[trigger] hs[j]).line < end ==> hs[j].level
                            > hs[i].level
                }
        },
    decreases names.len(),
{
    let i = named_from(hs, 0, from, to, text::trim(names[0]));
    lemma_named_from(hs, 0, from, to, text::trim(names[0]));
    if i < hs.len() {
        let h = hs[i as int];
        lemma_section_end_from(hs, 0, h.line, h.level, total);
        let end = section_end_from(hs, 0, h.line, h.level, total);
        let stop = if end < to {
            end
        } else {
            to
        };
        if names.len() > 1 {
            lemma_walk_headings(hs, names.drop_first(), h.line, h.line + 1, stop, total);
        } else {
            reveal_with_fuel(walk_headings, 2);
            assert(names.last() == names[0]);
        }
    }
}

proof fn lemma_split_nonempty(s: Seq<char>, sep: Seq<char>)
    ensures
        text::split(s, sep).len() > 0,
{
}

/// The section of a heading starts below the heading that the last name of the path names, and
/// holds no heading of the same or a higher level.
pub proof fn law_heading_section(content: Seq<char>, target: Seq<char>)
    ensures
        heading_range(content, target) matches Some((line, end)) ==> {
            let hs = note_headings(content);
            let names = text::split(target, seq![':', ':']);
            &&& line < end <= note_lines(content).len()
            &&& exists|i: int|
                {
                    &&& 0 <= i < hs.len()
                    &&& (#[trigger] hs[i]).line == line
                    &&& text::eq_ignore_ascii_case(hs[i].text, text::trim(names.last()))
                    &&& forall|j: int|
                        0 <= j < hs.len() && line < (#[trigger] hs[j]).line < end ==> hs[j].level
                            > hs[i].level
                }
        },
{
    let lines = note_lines(content);
    law_headings_are_prose(lines, lines.len());
    let hs = note_headings(content);
    assert forall|j: int| 0 <= j < hs.len() implies (#[trigger] hs[j]).line < lines.len() by {
        assert(headings_among(lines, lines.len())[j].line < lines.len());
    }
    lemma_split_nonempty(target, seq![':', ':']);
    lemma_walk_headings(
        hs,
        text::split(target, seq![':', ':']),
        0,
        0,
        lines.len(),
        lines.len(),
    );
}

/// Patching a heading touches only its section: what stands before the section, the heading
/// line with it, stays at the start of the note, and what stands after the section stays at its
/// end. Appending and prepending also keep the section itself.
pub proof fn law_heading_patch_keeps_the_rest(
    content: Seq<char>,
    operation: PatchOperation,
    target: Seq<char>,
    new: Seq<char>,
)
    ensures
        heading_patch(content, operation, target, new) matches Some(patched) ==> {
            let lines = text::raw_lines(content);
            let (line, end) = heading_range(content, target)->0;
            let head = text::concat(lines.take(line as int + 1));
            let section = text::concat(lines.subrange(line as int + 1, end as int));
            let tail = text::concat(lines.skip(end as int));
            &&& content == head + section + tail
            &&& head.is_prefix_of(patched)
            &&& tail.is_suffix_of(patched)
            &&& operation == PatchOperation::Append ==> (head + section).is_prefix_of(patched)
            &&& operation == PatchOperation::Prepend ==> (section + tail).is_suffix_of(patched)
        },
{
    if let Some((line, end)) = heading_range(content, target) {
        law_heading_section(content, target);
        let lines = text::raw_lines(content);
        let after = line as int + 1;
        text::lemma_concat_raw_lines(content);
        text::lemma_concat_add(lines.take(after), lines.skip(after));
        assert(lines.take(after) + lines.skip(after) == lines);
        let middle = lines.subrange(after, end as int);
        text::lemma_concat_add(middle, lines.skip(end as int));
        assert(middle + lines.skip(end as int) == lines.skip(after));
        let head = text::concat(lines.take(after));
        let section = text::concat(middle);
        let tail = text::concat(lines.skip(end as int));
        assert(head + (section + tail) == head + section + tail);
        lemma_patched_section(lines, after, end as int, operation, new);
    }
}

proof fn lemma_with_newline(p: Seq<char>, s: Seq<char>)
    requires
        p.is_prefix_of(s),
    ensures
        p.is_prefix_of(with_newline(s)),
{
    if s.len() > 0 && s.last() != '\n' {
        text::lemma_prefix_add(p, s, seq!['\n']);
        assert(s + seq!['\n'] == s.push('\n'));
    }
}

proof fn lemma_patched_section(
    lines: Seq<Seq<char>>,
    after: int,
    end: int,
    operation: PatchOperation,
    new: Seq<char>,
)
    requires
        0 <= after <= end <= lines.len(),
    ensures
        ({
            let patched = patched_section(lines, after, end, operation, new);
            let head = text::concat(lines.take(after));
            let section = text::concat(lines.subrange(after, end));
            let tail = text::concat(lines.skip(end));
            &&& head.is_prefix_of(patched)
            &&& tail.is_suffix_of(patched)
            &&& operation == PatchOperation::Append ==> (head + section).is_prefix_of(patched)
            &&& operation == PatchOperation::Prepend ==> (section + tail).is_suffix_of(patched)
        }),
{
    let head = text::concat(lines.take(after));
    let section = text::concat(lines.subrange(after, end));
    let tail = text::concat(lines.skip(end));
    match operation {
        PatchOperation::Prepend => {
            let start = with_newline(with_newline(head) + new);
            lemma_with_newline(head, head);
            text::lemma_prefix_add(head, with_newline(head), new);
            lemma_with_newline(head, with_newline(head) + new);
            text::lemma_prefix_add(head, start, section);
            text::lemma_prefix_add(head, start + section, tail);
            text::lemma_suffix_add(start + section, tail, tail);
            text::lemma_suffix_add(start, section + tail, section + tail);
            assert(start + section + tail == start + (section + tail));
        },
        PatchOperation::Append => {
            let kept = head + section;
            let start = with_newline(with_newline(kept) + new);
            text::lemma_prefix_add(head, head, section);
            lemma_with_newline(kept, kept);
            lemma_with_newline(head, kept);
            text::lemma_prefix_add(kept, with_newline(kept), new);
            text::lemma_prefix_add(head, with_newline(kept), new);
            lemma_with_newline(kept, with_newline(kept) + new);
            lemma_with_newline(head, with_newline(kept) + new);
            text::lemma_prefix_add(kept, start, tail);
            text::lemma_prefix_add(head, start, tail);
            text::lemma_suffix_add(start, tail, tail);
        },
        PatchOperation::Replace => {
            let start = with_newline(head) + new;
            lemma_with_newline(head, head);
            text::lemma_prefix_add(head, with_newline(head), new);
            lemma_with_newline(head, start);
            text::lemma_prefix_add(head, with_newline(start), tail);
            text::lemma_suffix_add(with_newline(start), tail, tail);
            if end >= lines.len() {
                assert(lines.skip(end).len() == 0);
                assert(start.subrange(start.len() as int, start.len() as int) == tail);
            }
        },
    }
}

proof fn lemma_block_line_from(lines: Seq<Seq<char>>, k: nat, id: Seq<char>)
    requires
        k <= lines.len(),
    ensures
        k <= block_line_from(lines, k, id) <= lines.len(),
        block_line_from(lines, k, id) < lines.len() ==> is_prose(
            lines,
            block_line_from(lines, k, id),
        ) && carries_block(lines[block_line_from(lines, k, id) as int], id),
        forall|j: int|
            k <= j < block_line_from(lines, k, id) ==> !(is_prose(lines, j as nat)
                && #[trigger] carries_block(lines[j], id)),
    decreases lines.len() - k,
{
    if k < lines.len() {
        lemma_block_line_from(lines, k + 1, id);
    }
}

/// Whether a text holds another one.
pub open spec fn holds(s: Seq<char>, part: Seq<char>) -> bool {
    exists|i: int|
        0 <= i && i + part.len() <= s.len() && #[trigger] s.subrange(i, i + part.len()) == part
}

/// Patching a block touches only its line: the lines before it stay at the start of the note,
/// the lines after it stay at its end, and the reference to the block stays in the note.
/// Appended content starts on the line after the block, and the block itself stays as it is;
/// prepended content stands in front of the whole line.
pub proof fn law_block_patch_keeps_the_rest(
    content: Seq<char>,
    operation: PatchOperation,
    target: Seq<char>,
    new: Seq<char>,
)
    ensures
        block_patch(content, operation, target, new) matches Some(patched) ==> {
            let lines = text::raw_lines(content);
            let id = block_id(target);
            let k = block_line_from(note_lines(content), 0, id) as int;
            let head = text::concat(lines.take(k));
            let tail = text::concat(lines.skip(k + 1));
            &&& content == head + lines[k] + tail
            &&& is_prose(note_lines(content), k as nat)
            &&& carries_block(text::strip_eol(lines[k]), id)
            &&& head.is_prefix_of(patched)
            &&& tail.is_suffix_of(patched)
            &&& holds(patched, block_marker(id))
            &&& operation == PatchOperation::Append ==> (with_newline(head + lines[k])
                + new).is_prefix_of(patched)
            &&& operation == PatchOperation::Prepend ==> (lines[k] + tail).is_suffix_of(patched)
        },
{
    let ls = note_lines(content);
    let lines = text::raw_lines(content);
    let id = block_id(target);
    let k = block_line_from(ls, 0, id) as int;
    lemma_block_line_from(ls, 0, id);
    if let Some(patched) = block_patch(content, operation, target, new) {
        assert(k < ls.len());
        assert(patched == patched_block(lines, k, operation, id, new));
        let head = text::concat(lines.take(k));
        let tail = text::concat(lines.skip(k + 1));
        assert(ls[k] == text::strip_eol(lines[k]));
        assert(carries_block(text::strip_eol(lines[k]), id));
        assert(content == head + lines[k] + tail) by {
            text::lemma_concat_raw_lines(content);
            text::lemma_concat_add(lines.take(k), lines.skip(k));
            assert(lines.take(k) + lines.skip(k) == lines);
            assert(lines.skip(k).drop_first() == lines.skip(k + 1));
            assert(head + (lines[k] + tail) == head + lines[k] + tail);
        }
        match operation {
            PatchOperation::Prepend => lemma_prepended_block(lines, k, id, new),
            PatchOperation::Append => lemma_appended_block(lines, k, id, new),
            PatchOperation::Replace => lemma_replaced_block(lines, k, id, new),
        }
        assert(head.is_prefix_of(patched));
        assert(tail.is_suffix_of(patched));
        assert(holds(patched, block_marker(id)));
    }
}

/// A text that stands somewhere in a line stands in every text that holds the line.
proof fn lemma_holds(a: Seq<char>, line: Seq<char>, b: Seq<char>, part: Seq<char>, at: int)
    requires
        0 <= at,
        at + part.len() <= line.len(),
        line.subrange(at, at + part.len()) == part,
    ensures
        holds(a + line + b, part),
{
    let s = a + line + b;
    let i = a.len() + at;
    assert(s.subrange(i, i + part.len()) =~= line.subrange(at, at + part.len()));
}

/// Where the reference to a block stands in its line.
proof fn lemma_marker_place(line: Seq<char>, id: Seq<char>)
    requires
        carries_block(text::strip_eol(line), id),
    ensures
        ({
            let bare = strip_breaks(line);
            let m = block_marker(id);
            let at = text::rfind(bare, m)->0 as int;
            &&& bare.len() <= line.len()
            &&& 0 <= at && at + m.len() <= bare.len()
            &&& bare.subrange(at, at + m.len()) == m
            &&& line.subrange(at, at + m.len()) == m
        }),
{
    let bare = strip_breaks(line);
    let m = block_marker(id);
    lemma_strip_breaks(line);
    lemma_block_reference_found(line, id);
    text::lemma_rfind(bare, m);
    let at = text::rfind(bare, m)->0 as int;
    assert(line.subrange(at, at + m.len()) =~= bare.subrange(at, at + m.len()));
}

proof fn lemma_prepended_block(lines: Seq<Seq<char>>, k: int, id: Seq<char>, new: Seq<char>)
    requires
        0 <= k < lines.len(),
        carries_block(text::strip_eol(lines[k]), id),
    ensures
        ({
            let patched = patched_block(lines, k, PatchOperation::Prepend, id, new);
            let tail = text::concat(lines.skip(k + 1));
            &&& text::concat(lines.take(k)).is_prefix_of(patched)
            &&& tail.is_suffix_of(patched)
            &&& (lines[k] + tail).is_suffix_of(patched)
            &&& holds(patched, block_marker(id))
        }),
{
    let head = text::concat(lines.take(k));
    let line = lines[k];
    let tail = text::concat(lines.skip(k + 1));
    let start = with_newline(head + new);
    let patched = patched_block(lines, k, PatchOperation::Prepend, id, new);
    lemma_marker_place(line, id);
    assert(patched == start + line + tail);
    text::lemma_prefix_add(head, head, new);
    lemma_with_newline(head, head + new);
    text::lemma_prefix_add(head, start, line);
    text::lemma_prefix_add(head, start + line, tail);
    text::lemma_suffix_add(start + line, tail, tail);
    text::lemma_suffix_add(start, line + tail, line + tail);
    assert(patched =~= start + (line + tail));
    let at = text::rfind(strip_breaks(line), block_marker(id))->0 as int;
    lemma_holds(start, line, tail, block_marker(id), at);
}

proof fn lemma_appended_block(lines: Seq<Seq<char>>, k: int, id: Seq<char>, new: Seq<char>)
    requires
        0 <= k < lines.len(),
        carries_block(text::strip_eol(lines[k]), id),
    ensures
        ({
            let patched = patched_block(lines, k, PatchOperation::Append, id, new);
            let head = text::concat(lines.take(k));
            &&& head.is_prefix_of(patched)
            &&& text::concat(lines.skip(k + 1)).is_suffix_of(patched)
            &&& (with_newline(head + lines[k]) + new).is_prefix_of(patched)
            &&& holds(patched, block_marker(id))
        }),
{
    let head = text::concat(lines.take(k));
    let line = lines[k];
    let tail = text::concat(lines.skip(k + 1));
    let kept = with_newline(head + line);
    let start = with_newline(kept + new);
    let patched = patched_block(lines, k, PatchOperation::Append, id, new);
    assert(patched == start + tail);
    lemma_marker_place(line, id);
    let at = text::rfind(strip_breaks(line), block_marker(id))->0 as int;
    lemma_with_newline(head + line, head + line);
    text::lemma_prefix_add(head + line, kept, new);
    lemma_with_newline(head + line, kept + new);
    text::lemma_prefix_add(head + line, start, tail);
    lemma_with_newline(kept + new, kept + new);
    text::lemma_prefix_add(kept + new, start, tail);
    text::lemma_suffix_add(start, tail, tail);
    assert((head + line).is_prefix_of(patched));
    assert(head.is_prefix_of(patched)) by {
        assert(patched.subrange(0, head.len() as int) =~= patched.subrange(
            0,
            (head + line).len() as int,
        ).subrange(0, head.len() as int));
        assert((head + line).subrange(0, head.len() as int) =~= head);
    }
    let rest = patched.skip((head + line).len() as int);
    assert(patched =~= head + line + rest);
    lemma_holds(head, line, rest, block_marker(id), at);
}

proof fn lemma_replaced_block(lines: Seq<Seq<char>>, k: int, id: Seq<char>, new: Seq<char>)
    requires
        0 <= k < lines.len(),
        carries_block(text::strip_eol(lines[k]), id),
    ensures
        ({
            let patched = patched_block(lines, k, PatchOperation::Replace, id, new);
            &&& text::concat(lines.take(k)).is_prefix_of(patched)
            &&& text::concat(lines.skip(k + 1)).is_suffix_of(patched)
            &&& holds(patched, block_marker(id))
        }),
{
    let head = text::concat(lines.take(k));
    let line = lines[k];
    let tail = text::concat(lines.skip(k + 1));
    let m = block_marker(id);
    let bare = strip_breaks(line);
    let patched = patched_block(lines, k, PatchOperation::Replace, id, new);
    lemma_marker_place(line, id);
    let at = text::rfind(bare, m)->0 as int;
    let lead = if new.len() > 0 {
        new.push(' ')
    } else {
        new
    };
    let marked = bare.skip(at);
    let end = line.skip(bare.len() as int);
    assert(patched == head + lead + marked + end + tail);
    text::lemma_prefix_add(head, head, lead);
    text::lemma_prefix_add(head, head + lead, marked);
    text::lemma_prefix_add(head, head + lead + marked, end);
    text::lemma_prefix_add(head, head + lead + marked + end, tail);
    text::lemma_suffix_add(head + lead + marked + end, tail, tail);
    assert(marked.subrange(0, m.len() as int) =~= bare.subrange(at, at + m.len()));
    assert(patched =~= head + lead + marked + (end + tail));
    lemma_holds(head + lead, marked, end + tail, m, 0);
}

/// Whether no two entries have the same key, as in every mapping.
pub open spec fn distinct_keys(entries: Seq<(YamlView, YamlView)>) -> bool {
    forall|i: int, j: int|
        0 <= i < j < entries.len() ==> (#[trigger] entries[i]).0 != (#[trigger] entries[j]).0
}

proof fn lemma_key_index(entries: Seq<(YamlView, YamlView)>, key: YamlView)
    ensures
        yaml::key_index(entries, key) <= entries.len(),
        yaml::key_index(entries, key) < entries.len() ==> entries[yaml::key_index(
            entries,
            key,
        ) as int].0 == key,
        forall|i: int|
            0 <= i < yaml::key_index(entries, key) ==> (#[trigger] entries[i]).0 != key,
    decreases entries.len(),
{
    if entries.len() > 0 && entries[0].0 != key {
        let d = entries.drop_first();
        lemma_key_index(d, key);
        assert forall|i: int| 0 <= i < yaml::key_index(entries, key) implies (
        #[trigger] entries[i]).0 != key by {
            if i > 0 {
                assert(d[i - 1] == entries[i]);
            }
        }
    }
}

/// The place of a key is the place at which it stands.
proof fn lemma_key_index_is(entries: Seq<(YamlView, YamlView)>, key: YamlView, i: int)
    requires
        distinct_keys(entries),
        0 <= i < entries.len(),
        entries[i].0 == key,
    ensures
        yaml::key_index(entries, key) == i,
{
    lemma_key_index(entries, key);
}

/// Patching a field of the front matter gives that field its new value and leaves the value of
/// every other field as it was.
pub proof fn law_frontmatter_patch_keeps_other_fields(
    entries: Seq<(YamlView, YamlView)>,
    operation: PatchOperation,
    field: Seq<char>,
    new: Seq<char>,
    other: YamlView,
)
    requires
        distinct_keys(entries),
    ensures
        distinct_keys(patched_entries(entries, operation, field, new)),
        yaml::entry_of(patched_entries(entries, operation, field, new), YamlView::Str(field))
            == Some(
            patched_value(
                yaml::entry_of(entries, YamlView::Str(field)),
                operation,
                new,
                value_or_text(new),
            ),
        ),
        other != YamlView::Str(field) ==> yaml::entry_of(
            patched_entries(entries, operation, field, new),
            other,
        ) == yaml::entry_of(entries, other),
{
    let key = YamlView::Str(field);
    let value = patched_value(yaml::entry_of(entries, key), operation, new, value_or_text(new));
    let base = if operation == PatchOperation::Replace {
        entries
    } else {
        yaml::without_entry(entries, key)
    };
    lemma_key_index(entries, key);
    lemma_key_index(entries, other);
    lemma_key_index(base, key);
    lemma_key_index(base, other);
    let at = yaml::key_index(entries, key) as int;
    if operation != PatchOperation::Replace && at < entries.len() {
        assert forall|i: int, j: int| 0 <= i < j < base.len() implies (#[trigger] base[i]).0 != (
        #[trigger] base[j]).0 by {
            assert(entries[i].0 != entries[j].0);
            assert(entries[i].0 != entries.last().0);
            assert(entries[j].0 != entries.last().0);
        }
        assert forall|i: int| 0 <= i < base.len() implies (#[trigger] base[i]).0 != key by {
            assert(entries[i].0 == entries[i].0);
        }
        if other != key {
            let o = yaml::key_index(entries, other) as int;
            if o < entries.len() {
                if o == entries.len() - 1 {
                    assert(base[at].0 == other);
                    lemma_key_index_is(base, other, at);
                } else {
                    assert(base[o].0 == other);
                    lemma_key_index_is(base, other, o);
                }
            } else {
                assert forall|i: int| 0 <= i < base.len() implies (#[trigger] base[i]).0
                    != other by {
                    assert(entries[i].0 == entries[i].0);
                }
            }
        }
    }
    assert(distinct_keys(base));
    assert(other != key ==> yaml::entry_of(base, other) == yaml::entry_of(entries, other));
    let result = yaml::with_entry(base, key, value);
    let b = yaml::key_index(base, key) as int;
    assert(distinct_keys(result)) by {
        assert forall|i: int, j: int| 0 <= i < j < result.len() implies (#[trigger] result[i]).0
            != (#[trigger] result[j]).0 by {
            if i < base.len() {
                assert(base[i].0 == result[i].0);
            }
            if j < base.len() {
                assert(base[j].0 == result[j].0);
            }
        }
    }
    assert(result[b].0 == key);
    lemma_key_index_is(result, key, b);
    lemma_key_index(result, other);
    if other != key {
        let o = yaml::key_index(base, other) as int;
        if o < base.len() {
            assert(result[o].0 == other);
            lemma_key_index_is(result, other, o);
        } else {
            let q = yaml::key_index(result, other) as int;
            if q < result.len() {
                assert(q < base.len());
                assert(base[q].0 == other);
            }
        }
    }
}

/// Patching the front matter leaves the body of the note as it was, at the end of the note.
pub proof fn law_frontmatter_patch_keeps_the_body(
    content: Seq<char>,
    operation: PatchOperation,
    field: Seq<char>,
    new: Seq<char>,
    path: Seq<char>,
)
    ensures
        frontmatter_patch(content, operation, field, new, path) matches Ok(patched) ==> {
            let close = front_matter_close(content)->0;
            let body = front_matter_body(content, close);
            &&& front_matter_close(content) is Some
            &&& body.is_suffix_of(content)
            &&& body.is_suffix_of(patched)
        },
{
    if let Some(close) = front_matter_close(content) {
        let lines = text::raw_lines(content);
        let body = front_matter_body(content, close);
        text::lemma_concat_raw_lines(content);
        text::lemma_concat_add(lines.take(close as int + 1), lines.skip(close as int + 1));
        assert(lines.take(close as int + 1) + lines.skip(close as int + 1) == lines);
        assert(content.subrange(content.len() - body.len(), content.len() as int) == body);
        if let Ok(patched) = frontmatter_patch(content, operation, field, new, path) {
            assert(patched.subrange(patched.len() - body.len(), patched.len() as int) == body);
        }
    }
}

/// Whether a text is nothing or a line feed.
pub open spec fn is_gap(s: Seq<char>) -> bool {
    s.len() == 0 || s == seq!['\n']
}

/// Whether a note is new content between two kept texts: the content starts on a line of its own,
/// and if it is closed, so does what follows it. A line feed is added only where one is missing.
pub open spec fn is_set_between(
    note: Seq<char>,
    before: Seq<char>,
    new: Seq<char>,
    after: Seq<char>,
    closed: bool,
) -> bool {
    exists|a: Seq<char>, b: Seq<char>|
        {
            &&& #[trigger] is_gap(a) && #[trigger] is_gap(b)
            &&& note == before + a + new + b + after
            &&& before.len() > 0 ==> (before + a).last() == '\n'
            &&& (before.len() == 0 || before.last() == '\n') ==> a.len() == 0
            &&& closed && (before + a + new).len() > 0 ==> (before + a + new + b).last() == '\n'
            &&& ((before + a + new).len() == 0 || (before + a + new).last() == '\n' || !closed)
                ==> b.len() == 0
        }
}

proof fn lemma_set_between(before: Seq<char>, new: Seq<char>, after: Seq<char>)
    ensures
        is_set_between(with_newline(with_newline(before) + new) + after, before, new, after, true),
        is_set_between(with_newline(before) + new + after, before, new, after, false),
{
    let gap = seq!['\n'];
    let none = Seq::<char>::empty();
    let a = if before.len() > 0 && before.last() != '\n' {
        gap
    } else {
        none
    };
    assert(with_newline(before) =~= before + a);
    let start = before + a + new;
    let b = if start.len() > 0 && start.last() != '\n' {
        gap
    } else {
        none
    };
    assert(with_newline(start) =~= start + b);
    assert(is_gap(a) && is_gap(b) && is_gap(none));
    assert(with_newline(with_newline(before) + new) + after =~= before + a + new + b + after);
    assert(with_newline(before) + new + after =~= before + a + new + none + after);
}

/// Patching a heading puts the content where the operation says, whole and on lines of its own:
/// between the heading line and the section, between the section and what follows it, or between
/// the heading line and what follows the section. Only where it takes the place of the last
/// section of a note does it stand at the end as it was given.
pub proof fn law_heading_patch_sets_the_content(
    content: Seq<char>,
    operation: PatchOperation,
    target: Seq<char>,
    new: Seq<char>,
)
    ensures
        heading_range(content, target) is Some <==> heading_patch(content, operation, target, new)
            is Some,
        heading_patch(content, operation, target, new) matches Some(patched) ==> {
            let lines = text::raw_lines(content);
            let (line, end) = heading_range(content, target)->0;
            let head = text::concat(lines.take(line as int + 1));
            let section = text::concat(lines.subrange(line as int + 1, end as int));
            let tail = text::concat(lines.skip(end as int));
            match operation {
                PatchOperation::Prepend => is_set_between(
                    patched,
                    head,
                    new,
                    section + tail,
                    true,
                ),
                PatchOperation::Append => is_set_between(patched, head + section, new, tail, true),
                PatchOperation::Replace => is_set_between(
                    patched,
                    head,
                    new,
                    tail,
                    tail.len() > 0,
                ),
            }
        },
{
    if let Some((line, end)) = heading_range(content, target) {
        law_heading_section(content, target);
        let lines = text::raw_lines(content);
        let head = text::concat(lines.take(line as int + 1));
        let section = text::concat(lines.subrange(line as int + 1, end as int));
        let tail = text::concat(lines.skip(end as int));
        let patched = heading_patch(content, operation, target, new)->0;
        assert(note_lines(content).len() == lines.len());
        match operation {
            PatchOperation::Prepend => {
                lemma_set_between(head, new, section + tail);
                assert(patched =~= with_newline(with_newline(head) + new) + (section + tail));
            },
            PatchOperation::Append => {
                lemma_set_between(head + section, new, tail);
            },
            PatchOperation::Replace => {
                lemma_set_between(head, new, tail);
                if end < lines.len() {
                    text::law_lines(content);
                    assert(lines.skip(end as int)[0] == lines[end as int]);
                    assert(tail.len() >= lines[end as int].len());
                } else {
                    assert(tail =~= Seq::<char>::empty());
                    assert(patched =~= with_newline(head) + new + tail);
                }
            },
        }
    }
}

proof fn lemma_lines_before(content: Seq<char>, k: int)
    requires
        0 <= k < text::raw_lines(content).len(),
    ensures
        ({
            let head = text::concat(text::raw_lines(content).take(k));
            head.len() > 0 ==> head.last() == '\n'
        }),
{
    let lines = text::raw_lines(content);
    text::law_lines(content);
    if k > 0 {
        text::lemma_concat_add(lines.take(k - 1), seq![lines[k - 1]]);
        assert(lines.take(k) =~= lines.take(k - 1) + seq![lines[k - 1]]);
        reveal_with_fuel(text::concat, 2);
        assert(seq![lines[k - 1]].drop_first() =~= Seq::<Seq<char>>::empty());
        assert(text::concat(seq![lines[k - 1]]) =~= lines[k - 1]);
        assert(lines[k - 1].last() == '\n');
    }
}

/// What follows the reference of a block on its line is white space.
proof fn lemma_marker_is_last(line: Seq<char>, id: Seq<char>)
    requires
        carries_block(text::strip_eol(line), id),
    ensures
        ({
            let bare = strip_breaks(line);
            let m = block_marker(id);
            let at = text::rfind(bare, m)->0 as int;
            let w = line.skip(at + m.len());
            &&& 0 <= at && at + m.len() <= bare.len() <= line.len()
            &&& bare.skip(at) + line.skip(bare.len() as int) == m + w
            &&& forall|i: int| 0 <= i < w.len() ==> text::is_white(#[trigger] w[i])
        }),
{
    let bare = strip_breaks(line);
    let m = block_marker(id);
    let short = text::strip_eol(line);
    let t = text::trim_end(short);
    let q = t.len() - m.len();
    lemma_marker_place(line, id);
    lemma_strip_breaks(line);
    text::lemma_trim_end(short);
    assert(short.len() <= line.len() && short =~= line.take(short.len() as int));
    assert forall|i: int| t.len() <= i < line.len() implies text::is_white(#[trigger] line[i]) by {
        if i < short.len() {
            assert(short[i] == line[i]);
        }
    }
    assert(t.last() == line[t.len() - 1]);
    assert(!text::is_white(t.last()));
    assert(t.len() <= bare.len());
    assert(t.subrange(q, t.len() as int) == m);
    assert(bare.subrange(q, q + m.len()) =~= m) by {
        assert(bare.subrange(q, q + m.len()) =~= t.subrange(q, t.len() as int));
    }
    assert(text::stands_at(bare, m, q));
    text::law_found_last_part(bare, m);
    let at = text::rfind(bare, m)->0 as int;
    assert(at >= q);
    if at > q {
        assert(text::stands_at(bare, m, at));
        assert(bare.subrange(at, at + m.len())[m.len() - 1] == m[m.len() - 1]);
        assert(t.subrange(q, t.len() as int)[m.len() - 1] == t.last());
        assert(line[at + m.len() - 1] == m[m.len() - 1]);
        assert(text::is_white(line[at + m.len() - 1]));
        assert(false);
    }
    let w = line.skip(at + m.len());
    assert(bare.skip(at) + line.skip(bare.len() as int) =~= line.skip(at));
    assert(line.skip(at) =~= line.subrange(at, at + m.len()) + w);
}

/// Patching a block puts the content where the operation says, whole: on lines of its own in
/// front of the line of the block or after it, or, with a space behind it, in the place of all
/// that stood in front of the reference on that line.
pub proof fn law_block_patch_sets_the_content(
    content: Seq<char>,
    operation: PatchOperation,
    target: Seq<char>,
    new: Seq<char>,
)
    ensures
        block_patch(content, operation, target, new) matches Some(patched) ==> {
            let lines = text::raw_lines(content);
            let id = block_id(target);
            let k = block_line_from(note_lines(content), 0, id) as int;
            let head = text::concat(lines.take(k));
            let line = lines[k];
            let tail = text::concat(lines.skip(k + 1));
            match operation {
                PatchOperation::Prepend => is_set_between(patched, head, new, line + tail, true),
                PatchOperation::Append => is_set_between(patched, head + line, new, tail, true),
                PatchOperation::Replace => exists|w: Seq<char>|
                    {
                        &&& #[trigger] w.is_suffix_of(line)
                        &&& forall|i: int| 0 <= i < w.len() ==> text::is_white(#[trigger] w[i])
                        &&& patched == head + (if new.len() > 0 {
                            new + seq![' ']
                        } else {
                            new
                        }) + seq!['^'] + id + w + tail
                    },
            }
        },
{
    let lines = text::raw_lines(content);
    let id = block_id(target);
    lemma_block_line_from(note_lines(content), 0, id);
    let k = block_line_from(note_lines(content), 0, id) as int;
    assert(note_lines(content).len() == lines.len());
    if k < lines.len() {
        let head = text::concat(lines.take(k));
        let line = lines[k];
        let tail = text::concat(lines.skip(k + 1));
        let patched = patched_block(lines, k, operation, id, new);
        assert(note_lines(content)[k] == text::strip_eol(line));
        match operation {
            PatchOperation::Prepend => {
                lemma_lines_before(content, k);
                lemma_set_between(head, new, line + tail);
                assert(with_newline(head) == head);
                assert(patched =~= with_newline(with_newline(head) + new) + (line + tail));
            },
            PatchOperation::Append => {
                lemma_set_between(head + line, new, tail);
            },
            PatchOperation::Replace => {
                lemma_marker_is_last(line, id);
                let bare = strip_breaks(line);
                let m = block_marker(id);
                let at = text::rfind(bare, m)->0 as int;
                let w = line.skip(at + m.len());
                assert(w.is_suffix_of(line)) by {
                    assert(w =~= line.subrange(line.len() - w.len(), line.len() as int));
                }
                let lead = if new.len() > 0 {
                    new + seq![' ']
                } else {
                    new
                };
                assert(new.len() > 0 ==> new.push(' ') =~= lead);
                assert(patched =~= head + lead + (bare.skip(at) + line.skip(bare.len() as int))
                    + tail);
                assert(head + lead + (m + w) + tail =~= head + lead + seq!['^'] + id + w + tail);
            },
        }
    }
}

/// A block is named with its `^` or without, and its line is the first one outside front matter
/// and code that ends, white space aside, with `^` and the name, alone or after a space. Where no
/// line does, there is nothing to patch.
pub proof fn law_block_line(content: Seq<char>, id: Seq<char>, k: int)
    requires
        id.len() == 0 || id[0] != '^',
    ensures
        block_id(id) == id,
        block_id(seq!['^'] + id) == id,
        ({
            let lines = note_lines(content);
            let at = block_line_from(lines, 0, id);
            &&& 0 <= k < at && k < lines.len() ==> !(is_prose(lines, k as nat)
                && ends_with_reference(lines[k], id))
            &&& at < lines.len() ==> is_prose(lines, at) && ends_with_reference(
                lines[at as int],
                id,
            )
            &&& at <= lines.len()
        }),
{
    let lines = note_lines(content);
    let at = block_line_from(lines, 0, id);
    assert((seq!['^'] + id).skip(1) =~= id);
    lemma_block_line_from(lines, 0, id);
    if 0 <= k < at && k < lines.len() {
        lemma_reference(lines[k], id);
        assert(carries_block(lines[k], id) == ends_with_reference(lines[k], id));
    }
    if at < lines.len() {
        lemma_reference(lines[at as int], id);
    }
}

/// Whether a line is a text that is empty or ends with a space, then `^` and a name, then white
/// space, and the name does not end with white space.
pub open spec fn ends_with_reference(line: Seq<char>, id: Seq<char>) -> bool {
    &&& id.len() > 0 ==> !text::is_white(id.last())
    &&& exists|i: int| #[trigger] has_reference_at(line, id, i)
}

/// Whether `^` and a name stand at a place of a line, alone or after a space, and nothing but white
/// space follows.
pub open spec fn has_reference_at(line: Seq<char>, id: Seq<char>, i: int) -> bool {
    &&& 0 <= i
    &&& i + 1 + id.len() <= line.len()
    &&& line[i] == '^'
    &&& line.subrange(i + 1, i + 1 + id.len()) == id
    &&& i == 0 || line[i - 1] == ' '
    &&& forall|j: int| i + 1 + id.len() <= j < line.len() ==> text::is_white(#[trigger] line[j])
}

proof fn lemma_reference(line: Seq<char>, id: Seq<char>)
    ensures
        carries_block(line, id) <==> ends_with_reference(line, id),
{
    let t = text::trim_end(line);
    let m = block_marker(id);
    text::lemma_trim_end(line);
    assert(m.last() == if id.len() > 0 {
        id.last()
    } else {
        '^'
    });
    if carries_block(line, id) {
        let q = t.len() - m.len();
        assert(t.subrange(q, t.len() as int) == m);
        assert(m[m.len() - 1] == t.last()) by {
            assert(t.subrange(q, t.len() as int)[m.len() - 1] == t[t.len() - 1]);
        }
        assert(has_reference_at(line, id, q)) by {
            assert(line[q] == t[q]);
            assert(t.subrange(q, t.len() as int)[0] == t[q]);
            assert forall|i: int| 0 <= i < id.len() implies line[q + 1 + i] == id[i] by {
                assert(t.subrange(q, t.len() as int)[i + 1] == t[q + 1 + i]);
                assert(m[i + 1] == id[i]);
            }
            assert(line.subrange(q + 1, q + 1 + id.len()) =~= id);
        }
    }
    if ends_with_reference(line, id) {
        let i = choose|i: int| #[trigger] has_reference_at(line, id, i);
        let n = i + 1 + id.len();
        assert(line[n - 1] == m.last()) by {
            if id.len() > 0 {
                assert(line.subrange(i + 1, n)[id.len() - 1] == line[n - 1]);
            }
        }
        if t.len() > n {
            assert(text::is_white(line[t.len() - 1]));
            assert(t.last() == line[t.len() - 1]);
        }
        if t.len() < n {
            assert(text::is_white(line[n - 1]));
        }
        assert(t.len() == n);
        assert(t.subrange(i, n) =~= m) by {
            assert forall|j: int| 0 <= j < m.len() implies t[i + j] == m[j] by {
                if j > 0 {
                    assert(line.subrange(i + 1, n)[j - 1] == line[i + j]);
                }
            }
        }
        assert(m.is_suffix_of(t));
    }
}

proof fn lemma_leading_is(s: Seq<char>, c: char, n: nat)
    requires
        n <= s.len(),
        forall|i: int| 0 <= i < n ==> s[i] == c,
        n == s.len() || s[n as int] != c,
    ensures
        leading(s, c) == n,
    decreases n,
{
    if n > 0 {
        assert(s[0] == c);
        lemma_leading_is(s.drop_first(), c, (n - 1) as nat);
    }
}

proof fn lemma_leading_all(s: Seq<char>, c: char)
    ensures
        leading(s, c) <= s.len(),
        forall|i: int| 0 <= i < leading(s, c) ==> s[i] == c,
        leading(s, c) < s.len() ==> s[leading(s, c) as int] != c,
    decreases s.len(),
{
    if s.len() > 0 && s[0] == c {
        let d = s.drop_first();
        lemma_leading_all(d, c);
        assert forall|i: int| 0 <= i < leading(s, c) implies s[i] == c by {
            if i > 0 {
                assert(d[i - 1] == s[i]);
            }
        }
    }
}

/// One to six `#` and a space make the rest of a line a heading of that level, whatever stands in
/// it; the white space around its text is not part of it. A line of nothing else than one to six
/// `#` is a heading without text. A seventh `#`, or anything else than a space behind them, makes
/// no heading.
pub proof fn law_heading_lines(level: nat, rest: Seq<char>)
    requires
        level > 0,
        rest.len() > 0 ==> rest[0] != '#',
    ensures
        ({
            let line = Seq::new(level, |i: int| '#') + rest;
            heading_of(line) == if level <= 6 && (rest.len() == 0 || rest[0] == ' ') {
                Some((level, text::trim(rest)))
            } else {
                None
            }
        }),
        rest.len() > 0 && !text::is_white(rest[0]) ==> heading_of(rest) is None,
        heading_of(Seq::empty()) is None,
        forall|line: Seq<char>| #[trigger]
            heading_of(seq![' '] + line) == heading_of(line),
{
    let line = Seq::new(level, |i: int| '#') + rest;
    assert(line[0] == '#');
    assert(text::trim_start(line) == line);
    lemma_leading_is(line, '#', level);
    assert(line.skip(level as int) =~= rest);
    if rest.len() > 0 {
        lemma_leading_is(rest, '#', 0);
    }
    assert forall|line: Seq<char>| #[trigger] heading_of(seq![' '] + line) == heading_of(line) by {
        assert((seq![' '] + line).drop_first() =~= line);
    }
}

/// Every heading line outside front matter and fenced code is among the headings of a note.
pub proof fn law_all_headings_are_found(lines: Seq<Seq<char>>, k: nat, line: nat)
    requires
        line < k <= lines.len(),
        is_prose(lines, line),
        heading_of(lines[line as int]) is Some,
    ensures
        exists|i: int|
            0 <= i < headings_among(lines, k).len() && (#[trigger] headings_among(lines, k)[i]).line
                == line,
    decreases k,
{
    let all = headings_among(lines, k);
    let before = headings_among(lines, (k - 1) as nat);
    if line == k - 1 {
        assert(all[all.len() - 1].line == line);
    } else {
        law_all_headings_are_found(lines, (k - 1) as nat, line);
        let i = choose|i: int| 0 <= i < before.len() && (#[trigger] before[i]).line == line;
        assert(all[i] == before[i]);
    }
}

/// A code block is opened by a line that starts, white space aside, with three backquotes or
/// three tildes, and closed by a line of nothing but that many of its marks, or more.
pub proof fn law_fences(line: Seq<char>, mark: char, width: nat)
    ensures
        opens_fence(line) <==> seq!['`', '`', '`'].is_prefix_of(text::trim_start(line)) || seq![
            '~',
            '~',
            '~',
        ].is_prefix_of(text::trim_start(line)),
        closes_fence(line, mark, width) <==> {
            let t = text::trim(line);
            &&& t.len() > 0
            &&& t.len() >= width
            &&& forall|i: int| 0 <= i < t.len() ==> #[trigger] t[i] == mark
        },
{
    let t = text::trim_start(line);
    lemma_leading_all(t, '`');
    lemma_leading_all(t, '~');
    let b = seq!['`', '`', '`'];
    let d = seq!['~', '~', '~'];
    if leading(t, '`') >= 3 {
        assert(b =~= t.subrange(0, 3));
    }
    if leading(t, '~') >= 3 {
        assert(d =~= t.subrange(0, 3));
    }
    if b.is_prefix_of(t) {
        assert(t.subrange(0, 3)[0] == '`' && t.subrange(0, 3)[1] == '`' && t.subrange(0, 3)[2]
            == '`');
        assert(t[0] == '`' && t[1] == '`' && t[2] == '`');
    }
    if d.is_prefix_of(t) {
        assert(t.subrange(0, 3)[0] == '~' && t.subrange(0, 3)[1] == '~' && t.subrange(0, 3)[2]
            == '~');
        assert(t[0] == '~' && t[1] == '~' && t[2] == '~');
    }
    let u = text::trim(line);
    lemma_leading_all(u, mark);
    if forall|i: int| 0 <= i < u.len() ==> #[trigger] u[i] == mark {
        lemma_leading_is(u, mark, u.len());
    }
    if leading(u, mark) == u.len() {
        assert forall|i: int| 0 <= i < u.len() implies #[trigger] u[i] == mark by {}
    }
}

/// A code block that is opened outside front matter and code lasts to the line that closes it, or
/// to the end of the note: nothing in it is prose, its fences included, and behind it prose goes
/// on.
pub proof fn law_code_is_no_prose(lines: Seq<Seq<char>>, i: nat, j: nat, k: nat)
    requires
        i <= k <= j < lines.len(),
        region_at(lines, i) is Body || (region_at(lines, i) is Start && !is_dashes(lines[i as int])),
        opens_fence(lines[i as int]),
        forall|m: int|
            i < m < j ==> !closes_fence(
                #[trigger] lines[m],
                text::trim_start(lines[i as int])[0],
                leading(text::trim_start(lines[i as int]), text::trim_start(lines[i as int])[0]),
            ),
    ensures
        !is_prose(lines, k),
        i < j && closes_fence(
            lines[j as int],
            text::trim_start(lines[i as int])[0],
            leading(text::trim_start(lines[i as int]), text::trim_start(lines[i as int])[0]),
        ) ==> region_at(lines, j + 1) is Body,
{
    let t = text::trim_start(lines[i as int]);
    let fence = Region::Fence { mark: t[0], width: leading(t, t[0]) };
    lemma_in_fence(lines, i, fence, k, j);
    lemma_in_fence(lines, i, fence, j, j);
}

proof fn lemma_in_fence(lines: Seq<Seq<char>>, i: nat, fence: Region, k: nat, j: nat)
    requires
        i <= k <= j < lines.len(),
        region_at(lines, i) is Body || (region_at(lines, i) is Start && !is_dashes(lines[i as int])),
        opens_fence(lines[i as int]),
        fence == region_after(region_at(lines, i), lines[i as int]),
        fence is Fence,
        forall|m: int|
            i < m < j ==> !closes_fence(#[trigger] lines[m], fence->mark, fence->width),
    ensures
        !is_prose(lines, k),
        k > i ==> region_at(lines, k) == fence,
    decreases k,
{
    if k > i + 1 {
        lemma_in_fence(lines, i, fence, (k - 1) as nat, j);
        assert(!closes_fence(lines[k - 1], fence->mark, fence->width));
    } else if k == i + 1 {
        assert(region_at(lines, k) == region_after(region_at(lines, i), lines[i as int]));
    }
}

/// Front matter is no prose: from a line of dashes at the very start of a note to the next line of
/// dashes. Behind it prose starts.
pub proof fn law_front_matter_is_no_prose(lines: Seq<Seq<char>>, j: nat, k: nat)
    requires
        k <= j < lines.len(),
        0 < j,
        is_dashes(lines[0]),
        forall|m: int| 0 < m < j ==> !is_dashes(#[trigger] lines[m]),
    ensures
        !is_prose(lines, k),
        is_dashes(lines[j as int]) ==> region_at(lines, j + 1) is Body,
{
    reveal_with_fuel(region_at, 2);
    lemma_in_front_matter(lines, k, j);
    lemma_in_front_matter(lines, j, j);
}

proof fn lemma_in_front_matter(lines: Seq<Seq<char>>, k: nat, j: nat)
    requires
        k <= j < lines.len(),
        is_dashes(lines[0]),
        forall|m: int| 0 < m < j ==> !is_dashes(#[trigger] lines[m]),
    ensures
        !is_prose(lines, k),
        k > 0 ==> region_at(lines, k) == Region::FrontMatter,
    decreases k,
{
    if k > 1 {
        lemma_in_front_matter(lines, (k - 1) as nat, j);
        assert(!is_dashes(lines[k - 1]));
    } else if k == 1 {
        reveal_with_fuel(region_at, 2);
    }
}

/// Where prose goes on, every line is prose up to the next line that opens a code block.
pub proof fn law_prose_goes_on(lines: Seq<Seq<char>>, i: nat, k: nat)
    requires
        i <= k < lines.len(),
        region_at(lines, i) is Body || (i == 0 && !is_dashes(lines[0])),
        forall|m: int| i <= m <= k ==> !opens_fence(#[trigger] lines[m]),
    ensures
        is_prose(lines, k),
        region_at(lines, k + 1) is Body,
    decreases k,
{
    assert(!opens_fence(lines[k as int]));
    if k > i {
        law_prose_goes_on(lines, i, (k - 1) as nat);
    }
}

proof fn lemma_named_first(hs: Seq<HeadingAt>, i: nat, from: nat, to: nat, name: Seq<char>)
    requires
        i <= hs.len(),
    ensures
        forall|j: int|
            i <= j < named_from(hs, i, from, to, name) ==> !(from <= (#[trigger] hs[j]).line < to
                && text::eq_ignore_ascii_case(hs[j].text, name)),
    decreases hs.len() - i,
{
    if i < hs.len() && !(from <= hs[i as int].line < to && text::eq_ignore_ascii_case(
        hs[i as int].text,
        name,
    )) {
        lemma_named_first(hs, i + 1, from, to, name);
    }
}

proof fn lemma_section_end_is_heading(
    hs: Seq<HeadingAt>,
    i: nat,
    line: nat,
    level: nat,
    total: nat,
)
    requires
        i <= hs.len(),
    ensures
        ({
            let end = section_end_from(hs, i, line, level, total);
            end == total || exists|j: int|
                i <= j < hs.len() && (#[trigger] hs[j]).line == end && hs[j].level <= level
                    && hs[j].line > line
        }),
    decreases hs.len() - i,
{
    if i < hs.len() && !(hs[i as int].line > line && hs[i as int].level <= level) {
        lemma_section_end_is_heading(hs, i + 1, line, level, total);
        let end = section_end_from(hs, i + 1, line, level, total);
        if end != total {
            let j = choose|j: int|
                i + 1 <= j < hs.len() && (#[trigger] hs[j]).line == end && hs[j].level <= level
                    && hs[j].line > line;
            assert(i <= j < hs.len() && hs[j].line == end);
        }
    }
}

/// Whether lines `line..end` are a heading of a name with its section, within lines `from..to`:
/// the first heading of that name there, down to the next heading that is not below it, or to the
/// end of the lines.
pub open spec fn is_section(
    hs: Seq<HeadingAt>,
    name: Seq<char>,
    from: nat,
    to: nat,
    line: nat,
    end: nat,
) -> bool {
    exists|i: int|
        {
            &&& 0 <= i < hs.len()
            &&& (#[trigger] hs[i]).line == line
            &&& from <= line < end <= to
            &&& text::eq_ignore_ascii_case(hs[i].text, text::trim(name))
            &&& forall|j: int|
                0 <= j < i && from <= (#[trigger] hs[j]).line ==> !text::eq_ignore_ascii_case(
                    hs[j].text,
                    text::trim(name),
                )
            &&& forall|j: int|
                0 <= j < hs.len() && line < (#[trigger] hs[j]).line < end ==> hs[j].level
                    > hs[i].level
            &&& end == to || exists|j: int|
                0 <= j < hs.len() && (#[trigger] hs[j]).line == end && hs[j].level <= hs[i].level
        }
}

/// Whether headings come in the order of their lines, below `total`.
pub open spec fn in_line_order(hs: Seq<HeadingAt>, total: nat) -> bool {
    &&& forall|j: int| 0 <= j < hs.len() ==> (#[trigger] hs[j]).line < total
    &&& forall|j: int, k: int|
        0 <= j < k < hs.len() ==> (#[trigger] hs[j]).line < (#[trigger] hs[k]).line
}

proof fn lemma_single_name(
    hs: Seq<HeadingAt>,
    name: Seq<char>,
    at: nat,
    from: nat,
    to: nat,
    total: nat,
)
    requires
        to <= total,
        in_line_order(hs, total),
    ensures
        match walk_headings(hs, seq![name], at, from, to, total) {
            Some((line, end)) => is_section(hs, name, from, to, line, end),
            None => forall|j: int|
                0 <= j < hs.len() && from <= (#[trigger] hs[j]).line < to
                    ==> !text::eq_ignore_ascii_case(hs[j].text, text::trim(name)),
        },
{
    let n = text::trim(name);
    let i = named_from(hs, 0, from, to, n);
    lemma_named_from(hs, 0, from, to, n);
    lemma_named_first(hs, 0, from, to, n);
    assert(seq![name].drop_first() =~= Seq::<Seq<char>>::empty());
    reveal_with_fuel(walk_headings, 2);
    if i < hs.len() {
        let h = hs[i as int];
        lemma_section_end_from(hs, 0, h.line, h.level, total);
        lemma_section_end_is_heading(hs, 0, h.line, h.level, total);
        let end = section_end_from(hs, 0, h.line, h.level, total);
        let stop = if end < to {
            end
        } else {
            to
        };
        assert(walk_headings(hs, seq![name], at, from, to, total) == Some((h.line, stop)));
        assert forall|j: int| 0 <= j < i && from <= (#[trigger] hs[j]).line implies
            !text::eq_ignore_ascii_case(hs[j].text, n) by {
            assert(hs[j].line < h.line);
        }
        assert(hs[i as int].line == h.line);
    }
}

proof fn lemma_walk_push(
    hs: Seq<HeadingAt>,
    names: Seq<Seq<char>>,
    name: Seq<char>,
    at: nat,
    from: nat,
    to: nat,
    total: nat,
)
    ensures
        walk_headings(hs, names.push(name), at, from, to, total) == match walk_headings(
            hs,
            names,
            at,
            from,
            to,
            total,
        ) {
            Some((line, end)) => walk_headings(
                hs,
                seq![name],
                line,
                if names.len() == 0 {
                    from
                } else {
                    line + 1
                },
                end,
                total,
            ),
            None => None,
        },
    decreases names.len(),
{
    if names.len() == 0 {
        assert(names.push(name) =~= seq![name]);
    } else {
        let all = names.push(name);
        assert(all.drop_first() =~= names.drop_first().push(name));
        assert(all[0] == names[0]);
        let i = named_from(hs, 0, from, to, text::trim(names[0]));
        if i < hs.len() {
            let h = hs[i as int];
            let end = section_end_from(hs, 0, h.line, h.level, total);
            let stop = if end < to {
                end
            } else {
                to
            };
            lemma_walk_push(hs, names.drop_first(), name, h.line, h.line + 1, stop, total);
        }
    }
}

/// A target without `::` means the first heading of that name in the note, in any letter case,
/// down to the next heading that is not below it. A path of names means the first heading with its
/// last name in the section of the path without it. Where there is none the target is not found.
pub proof fn law_heading_is_found(content: Seq<char>, names: Seq<Seq<char>>, name: Seq<char>)
    ensures
        ({
            let hs = note_headings(content);
            let total = note_lines(content).len();
            &&& match walk_headings(hs, seq![name], 0, 0, total, total) {
                Some((line, end)) => is_section(hs, name, 0, total, line, end),
                None => forall|j: int|
                    0 <= j < hs.len() ==> !text::eq_ignore_ascii_case(
                        (#[trigger] hs[j]).text,
                        text::trim(name),
                    ),
            }
            &&& names.len() > 0 ==> match walk_headings(hs, names, 0, 0, total, total) {
                None => walk_headings(hs, names.push(name), 0, 0, total, total) is None,
                Some((at, to)) => match walk_headings(hs, names.push(name), 0, 0, total, total) {
                    Some((line, end)) => is_section(hs, name, at + 1, to, line, end),
                    None => forall|j: int|
                        0 <= j < hs.len() && at < (#[trigger] hs[j]).line < to
                            ==> !text::eq_ignore_ascii_case(hs[j].text, text::trim(name)),
                },
            }
        }),
        forall|target: Seq<char>| #[trigger]
            heading_range(content, target) == walk_headings(
                note_headings(content),
                text::split(target, seq![':', ':']),
                0,
                0,
                note_lines(content).len(),
                note_lines(content).len(),
            ),
{
    let lines = note_lines(content);
    let hs = note_headings(content);
    let total = lines.len();
    law_headings_are_prose(lines, total);
    assert forall|j: int| 0 <= j < hs.len() implies (#[trigger] hs[j]).line < total by {
        assert(headings_among(lines, total)[j].line < total);
    }
    assert(in_line_order(hs, total));
    lemma_single_name(hs, name, 0, 0, total, total);
    if names.len() > 0 {
        lemma_walk_push(hs, names, name, 0, 0, total, total);
        lemma_walk_headings(hs, names, 0, 0, total, total);
        if let Some((at, to)) = walk_headings(hs, names, 0, 0, total, total) {
            lemma_single_name(hs, name, at, at + 1, to, total);
        }
    }
}

proof fn lemma_dashes_from(lines: Seq<Seq<char>>, k: nat)
    requires
        k <= lines.len(),
    ensures
        k <= dashes_from(lines, k) <= lines.len(),
        dashes_from(lines, k) < lines.len() ==> is_dashes(lines[dashes_from(lines, k) as int]),
        forall|i: int| k <= i < dashes_from(lines, k) ==> !is_dashes(#[trigger] lines[i]),
    decreases lines.len() - k,
{
    if k < lines.len() && !is_dashes(lines[k as int]) {
        lemma_dashes_from(lines, k + 1);
    }
}

/// Front matter is what lies between a first line of three dashes and the next such line: with
/// these two lines and the body it makes up the note. A note that does not start with three
/// dashes, or has no second line of dashes, has no front matter.
pub proof fn law_front_matter_between_dashes(content: Seq<char>)
    ensures
        ({
            let lines = text::raw_lines(content);
            match front_matter_close(content) {
                Some(close) => {
                    &&& 0 < close < lines.len()
                    &&& seq!['-', '-', '-'].is_prefix_of(content)
                    &&& text::trim(lines[0]) == seq!['-', '-', '-']
                    &&& text::trim(lines[close as int]) == seq!['-', '-', '-']
                    &&& forall|i: int|
                        0 < i < close ==> text::trim(#[trigger] lines[i]) != seq!['-', '-', '-']
                    &&& content == lines[0] + front_matter_yaml(content, close)
                        + lines[close as int] + front_matter_body(content, close)
                },
                None => {
                    ||| !seq!['-', '-', '-'].is_prefix_of(content)
                    ||| text::trim(lines[0]) != seq!['-', '-', '-']
                    ||| lines[0].last() != '\n'
                    ||| forall|i: int|
                        0 < i < lines.len() ==> text::trim(#[trigger] lines[i]) != seq![
                            '-',
                            '-',
                            '-',
                        ]
                },
            }
        }),
{
    let lines = text::raw_lines(content);
    if lines.len() > 0 {
        lemma_dashes_from(lines, 1);
    }
    if seq!['-', '-', '-'].is_prefix_of(content) {
        assert(content.len() >= 3);
        text::law_lines(content);
        assert(lines.len() > 0);
        match front_matter_close(content) {
            Some(close) => {
                let c = close as int;
                assert forall|i: int| 0 < i < close implies text::trim(#[trigger] lines[i]) != seq![
                    '-',
                    '-',
                    '-',
                ] by {
                    assert(!is_dashes(lines[i]));
                }
                text::lemma_concat_add(lines.take(1), lines.skip(1));
                text::lemma_concat_add(lines.subrange(1, c), lines.skip(c));
                text::lemma_concat_add(lines.subrange(c, c + 1), lines.skip(c + 1));
                assert(lines =~= lines.take(1) + lines.skip(1));
                assert(lines.skip(1) =~= lines.subrange(1, c) + lines.skip(c));
                assert(lines.skip(c) =~= lines.subrange(c, c + 1) + lines.skip(c + 1));
                assert(lines.take(1) =~= seq![lines[0]]);
                assert(lines.subrange(c, c + 1) =~= seq![lines[c]]);
                lemma_concat_one(lines[0]);
                lemma_concat_one(lines[c]);
                let yaml = front_matter_yaml(content, close);
                let body = front_matter_body(content, close);
                assert(content =~= lines[0] + (yaml + (lines[c] + body)));
                assert(content =~= lines[0] + yaml + lines[c] + body);
            },
            None => {
                assert forall|i: int|
                    0 < i < lines.len() && is_dashes(lines[0]) && lines[0].last() == '\n' implies
                    text::trim(#[trigger] lines[i]) != seq!['-', '-', '-'] by {
                    assert(!is_dashes(lines[i]));
                }
            },
        }
    }
}

proof fn lemma_concat_one(s: Seq<char>)
    ensures
        text::concat(seq![s]) == s,
{
    reveal_with_fuel(text::concat, 2);
    assert(seq![s].drop_first() =~= Seq::<Seq<char>>::empty());
    assert(text::concat(seq![s]) =~= s);
}

/// What a patch makes of the value of a field: a list gets what the content stands for as its last
/// element or its first, a text gets the content itself behind it or in front of it, a number and
/// a truth value likewise as they are written, an absent or empty field becomes the content, and
/// replacing gives what the content stands for.
pub proof fn law_patched_value(
    items: Seq<YamlView>,
    s: Seq<char>,
    n: Seq<char>,
    new: Seq<char>,
    parsed: YamlView,
    current: Option<YamlView>,
)
    ensures
        patched_value(current, PatchOperation::Replace, new, parsed) == parsed,
        patched_value(Some(YamlView::Sequence(items)), PatchOperation::Append, new, parsed)
            matches YamlView::Sequence(r) && r.len() == items.len() + 1 && r.last() == parsed
            && r.drop_last() == items,
        patched_value(Some(YamlView::Sequence(items)), PatchOperation::Prepend, new, parsed)
            matches YamlView::Sequence(r) && r.len() == items.len() + 1 && r[0] == parsed
            && r.drop_first() == items,
        patched_value(Some(YamlView::Str(s)), PatchOperation::Append, new, parsed)
            == YamlView::Str(s + new),
        patched_value(Some(YamlView::Str(s)), PatchOperation::Prepend, new, parsed)
            == YamlView::Str(new + s),
        patched_value(Some(YamlView::Number(n)), PatchOperation::Append, new, parsed)
            == YamlView::Str(n + new),
        patched_value(Some(YamlView::Number(n)), PatchOperation::Prepend, new, parsed)
            == YamlView::Str(new + n),
        patched_value(Some(YamlView::Bool(true)), PatchOperation::Append, new, parsed)
            == YamlView::Str("true"@ + new),
        patched_value(Some(YamlView::Bool(false)), PatchOperation::Append, new, parsed)
            == YamlView::Str("false"@ + new),
        patched_value(Some(YamlView::Bool(true)), PatchOperation::Prepend, new, parsed)
            == YamlView::Str(new + "true"@),
        patched_value(Some(YamlView::Bool(false)), PatchOperation::Prepend, new, parsed)
            == YamlView::Str(new + "false"@),
        patched_value(Some(YamlView::Null), PatchOperation::Append, new, parsed) == YamlView::Str(
            new,
        ),
        patched_value(Some(YamlView::Null), PatchOperation::Prepend, new, parsed) == YamlView::Str(
            new,
        ),
        patched_value(None, PatchOperation::Append, new, parsed) == YamlView::Str(new),
        patched_value(None, PatchOperation::Prepend, new, parsed) == YamlView::Str(new),
        yaml::yaml_value_of(new) matches Ok(v) ==> value_or_text(new) == v,
        yaml::yaml_value_of(new) is Err ==> value_or_text(new) == YamlView::Str(new),
{
    assert(items.push(parsed).drop_last() =~= items);
    assert((seq![parsed] + items).drop_first() =~= items);
    assert(Seq::<char>::empty() + new =~= new);
    assert(new + Seq::<char>::empty() =~= new);
}

/// A patched front matter stands between two lines of dashes in front of the body. A patch of a
/// note without front matter, or of a heading or a block that is not there, reports what is
/// missing, and where.
pub proof fn law_missing_targets_are_reported(
    content: Seq<char>,
    operation: PatchOperation,
    target: Seq<char>,
    new: Seq<char>,
    path: Seq<char>,
)
    ensures
        heading_range(content, target) is None ==> patch_result(
            content,
            PatchTargetType::Heading,
            operation,
            target,
            new,
            path,
        ) == Err::<Seq<char>, ErrorView>(
            ErrorView::PatchTargetNotFound { path, target_type: "heading"@, target },
        ),
        block_line_from(note_lines(content), 0, block_id(target)) >= note_lines(content).len()
            ==> patch_result(content, PatchTargetType::Block, operation, target, new, path) == Err::<
            Seq<char>,
            ErrorView,
        >(ErrorView::PatchTargetNotFound { path, target_type: "block"@, target }),
        front_matter_close(content) is None ==> patch_result(
            content,
            PatchTargetType::Frontmatter,
            operation,
            target,
            new,
            path,
        ) == Err::<Seq<char>, ErrorView>(
            ErrorView::PatchTargetNotFound { path, target_type: "frontmatter"@, target },
        ),
        heading_range(content, target) is Some ==> patch_result(
            content,
            PatchTargetType::Heading,
            operation,
            target,
            new,
            path,
        ) is Ok,
        block_line_from(note_lines(content), 0, block_id(target)) < note_lines(content).len()
            ==> patch_result(content, PatchTargetType::Block, operation, target, new, path) is Ok,
        forall|yaml: Seq<char>, body: Seq<char>|
            #![trigger with_front_matter(yaml, body)]
            !seq!['-', '-', '-'].is_prefix_of(yaml) && yaml.len() > 0 && yaml.last() == '\n'
                ==> with_front_matter(yaml, body) == seq!['-', '-', '-', '\n'] + yaml + seq![
                '-',
                '-',
                '-',
                '\n',
            ] + body,
{
    assert forall|yaml: Seq<char>, body: Seq<char>|
        #![trigger with_front_matter(yaml, body)]
        !seq!['-', '-', '-'].is_prefix_of(yaml) && yaml.len() > 0 && yaml.last()
            == '\n' implies with_front_matter(yaml, body) == seq!['-', '-', '-', '\n'] + yaml
        + seq!['-', '-', '-', '\n'] + body by {
        let d = seq!['-', '-', '-'];
        if seq!['-', '-', '-', '\n'].is_prefix_of(yaml) {
            assert(d =~= yaml.subrange(0, 4).subrange(0, 3));
            assert(d =~= yaml.subrange(0, 3));
        }
        if seq!['-', '-', '-', '\r', '\n'].is_prefix_of(yaml) {
            assert(d =~= yaml.subrange(0, 5).subrange(0, 3));
            assert(d =~= yaml.subrange(0, 3));
        }
    }
}

/// New content for a field is the value that it is in YAML, and a text where it is none.
pub proof fn law_new_value(new: Seq<char>, v: YamlView)
    ensures
        yaml::yaml_value_of(new) == Ok::<YamlView, Seq<char>>(v) ==> value_or_text(new) == v,
        yaml::yaml_value_of(new) is Err ==> value_or_text(new) == YamlView::Str(new),
{
}

/// What is appended to a value that is neither a list nor simple goes behind its YAML, without
/// the white space around it.
pub proof fn law_text_of_nested_value(v: YamlView, t: Seq<char>, new: Seq<char>)
    requires
        v is Mapping || v is Tagged,
    ensures
        yaml::yaml_text_of_value(v) == Ok::<Seq<char>, Seq<char>>(t) ==> patched_value(
            Some(v),
            PatchOperation::Append,
            new,
            value_or_text(new),
        ) == YamlView::Str(text::trim(t) + new),
        yaml::yaml_text_of_value(v) is Err ==> patched_value(
            Some(v),
            PatchOperation::Append,
            new,
            value_or_text(new),
        ) == YamlView::Str(new),
{
    assert(Seq::<char>::empty() + new =~= new);
}

/// A field that is replaced stays where it is; one that is added to, and a new one, is the last.
pub proof fn law_place_of_patched_field(
    entries: Seq<(YamlView, YamlView)>,
    operation: PatchOperation,
    field: Seq<char>,
    new: Seq<char>,
    i: int,
)
    requires
        yaml::keys_are_distinct(entries),
    ensures
        ({
            let key = YamlView::Str(field);
            let patched = patched_entries(entries, operation, field, new);
            let value = patched_value(
                yaml::entry_of(entries, key),
                operation,
                new,
                value_or_text(new),
            );
            &&& operation is Replace && 0 <= i < entries.len() && entries[i].0 == key
                ==> patched[i] == (key, value)
            &&& operation !is Replace ==> patched.last() == (key, value)
            &&& yaml::entry_of(entries, key) is None ==> patched == entries.push((key, value))
            &&& yaml::entry_of(entries, key) is Some ==> patched.len() == entries.len()
        }),
{
    let key = YamlView::Str(field);
    let value = patched_value(yaml::entry_of(entries, key), operation, new, value_or_text(new));
    yaml::law_set_entry(entries, key, value, key, i);
    yaml::law_removed_entry(entries, key, key);
    yaml::lemma_key_index(entries, key);
    yaml::lemma_key_index(yaml::without_entry(entries, key), key);
    if 0 <= i < entries.len() && entries[i].0 == key {
        yaml::lemma_key_index_is(entries, key, i);
    }
}

/// Front matter is written between two lines of three dashes, with one line feed at its end; a
/// document start that the YAML brings along is left out, and the body comes behind it as it was.
pub proof fn law_written_front_matter(yaml: Seq<char>, body: Seq<char>)
    requires
        !seq!['-', '-', '-', '\n'].is_prefix_of(yaml),
        !seq!['-', '-', '-', '\r', '\n'].is_prefix_of(yaml),
    ensures
        with_front_matter(seq!['-', '-', '-', '\n'] + yaml, body) == with_front_matter(yaml, body),
        with_front_matter(seq!['-', '-', '-', '\r', '\n'] + yaml, body) == with_front_matter(
            yaml,
            body,
        ),
        yaml.len() == 0 || yaml.last() == '\n' ==> with_front_matter(yaml, body)
            == frontmatter::joined_note(yaml, body),
        yaml.len() > 0 && yaml.last() != '\n' ==> with_front_matter(yaml, body)
            == frontmatter::joined_note(yaml.push('\n'), body),
{
    let a = seq!['-', '-', '-', '\n'];
    let b = seq!['-', '-', '-', '\r', '\n'];
    assert((a + yaml).take(4) =~= a);
    assert((b + yaml).take(5) =~= b);
    assert((a + yaml).skip(4) =~= yaml);
    assert((b + yaml).skip(5) =~= yaml);
    assert(!a.is_prefix_of(b + yaml)) by {
        assert((b + yaml)[3] == '\r');
    }
}

/// Blank front matter is patched as one without fields.
pub proof fn law_patched_blank_front_matter(
    content: Seq<char>,
    operation: PatchOperation,
    field: Seq<char>,
    new: Seq<char>,
    path: Seq<char>,
    close: nat,
    yaml: Seq<char>,
)
    requires
        front_matter_close(content) == Some(close),
        forall|i: int|
            0 <= i < front_matter_yaml(content, close).len() ==> text::is_white(
                #[trigger] front_matter_yaml(content, close)[i],
            ),
        yaml::yaml_text_of_mapping(
            seq![
                (
                    YamlView::Str(field),
                    if operation is Replace {
                        value_or_text(new)
                    } else {
                        YamlView::Str(new)
                    },
                ),
            ],
        ) == Ok::<Seq<char>, Seq<char>>(yaml),
    ensures
        frontmatter_patch(content, operation, field, new, path) == Ok::<Seq<char>, ErrorView>(
            with_front_matter(yaml, front_matter_body(content, close)),
        ),
{
    let old_yaml = front_matter_yaml(content, close);
    text::law_trimmed_text(old_yaml);
    let t = text::trim(old_yaml);
    let i = choose|i: int| #[trigger] text::is_trimmed_at(old_yaml, t, i);
    if t.len() > 0 {
        assert(t[0] == old_yaml[i]);
    }
    let none = Seq::<(YamlView, YamlView)>::empty();
    law_place_of_patched_field(none, operation, field, new, 0);
    let value = if operation is Replace {
        value_or_text(new)
    } else {
        YamlView::Str(new)
    };
    assert(patched_entries(none, operation, field, new) =~= seq![(YamlView::Str(field), value)]);
}

} // verus!
