//! YAML frontmatter parsing, serialization, and field-level manipulation.
use crate::error::{ErrorView, VaultError};
use crate::json;
use crate::json::{JsonKind, JsonView};
use crate::patch;
use crate::text;
use vstd::prelude::*;

verus! {

// ---------------------------------------------------------------------------
// Front matter and body
// ---------------------------------------------------------------------------

/// Whether a line is a delimiter: three dashes and nothing else before the line end.
pub open spec fn is_delimiter(line: Seq<char>) -> bool {
    patch::strip_breaks(line) == seq!['-', '-', '-']
}

/// Whether a line opens front matter.
pub open spec fn opens_front_matter(line: Seq<char>) -> bool {
    line == seq!['-', '-', '-', '\n'] || line == seq!['-', '-', '-', '\r', '\n']
}

/// The first delimiter line from `k` on; the number of lines if there is none.
pub open spec fn delimiter_from(lines: Seq<Seq<char>>, k: nat) -> nat
    decreases lines.len() - k,
{
    if k >= lines.len() {
        lines.len()
    } else if is_delimiter(lines[k as int]) {
        k
    } else {
        delimiter_from(lines, k + 1)
    }
}

/// The line that closes the front matter of a note.
pub open spec fn closing_line(content: Seq<char>) -> Option<nat> {
    let lines = text::raw_lines(content);
    if lines.len() > 0 && opens_front_matter(lines[0]) && delimiter_from(lines, 1) < lines.len() {
        Some(delimiter_from(lines, 1))
    } else {
        None
    }
}

/// The YAML of the front matter.
pub open spec fn raw_yaml(content: Seq<char>) -> Option<Seq<char>> {
    match closing_line(content) {
        Some(k) => Some(text::concat(text::raw_lines(content).subrange(1, k as int))),
        None => None,
    }
}

/// What stands before the body: the front matter with its delimiters.
pub open spec fn header_of(content: Seq<char>) -> Seq<char> {
    match closing_line(content) {
        Some(k) => text::concat(text::raw_lines(content).take(k as int + 1)),
        None => Seq::empty(),
    }
}

/// Everything after the front matter.
pub open spec fn body_of(content: Seq<char>) -> Seq<char> {
    content.skip(header_of(content).len() as int)
}

proof fn lemma_header(content: Seq<char>)
    ensures
        header_of(content).is_prefix_of(content),
        header_of(content) + body_of(content) == content,
        closing_line(content) matches Some(k) ==> 0 < k < text::raw_lines(content).len()
            && body_of(content) == text::concat(text::raw_lines(content).skip(k as int + 1)),
{
    let lines = text::raw_lines(content);
    if let Some(k) = closing_line(content) {
        lemma_delimiter_from(lines, 1);
        text::lemma_concat_raw_lines(content);
        text::lemma_concat_add(lines.take(k as int + 1), lines.skip(k as int + 1));
        assert(lines.take(k as int + 1) + lines.skip(k as int + 1) =~= lines);
        let h = header_of(content);
        assert(content.subrange(0, h.len() as int) =~= h);
        assert(body_of(content) =~= text::concat(lines.skip(k as int + 1)));
    }
    assert(header_of(content) + body_of(content) =~= content);
}

pub proof fn lemma_delimiter_from(lines: Seq<Seq<char>>, k: nat)
    requires
        k <= lines.len(),
    ensures
        k <= delimiter_from(lines, k) <= lines.len(),
        delimiter_from(lines, k) < lines.len() ==> is_delimiter(
            lines[delimiter_from(lines, k) as int],
        ),
        forall|i: int| k <= i < delimiter_from(lines, k) ==> !is_delimiter(#[trigger] lines[i]),
    decreases lines.len() - k,
{
    if k < lines.len() {
        lemma_delimiter_from(lines, k + 1);
    }
}

/// Whether a line is a delimiter.
fn line_is_delimiter(line: &[char]) -> (r: bool)
    ensures
        r == is_delimiter(line@),
{
    let dashes: [char; 3] = ['-', '-', '-'];
    assert(dashes@ == seq!['-', '-', '-']);
    text::same_chars(patch::without_breaks(line), &dashes)
}

/// Finds the closing line among lines that were split.
fn find_closing_line(lines: &Vec<Vec<char>>) -> (r: Option<usize>)
    ensures
        ({
            let raw = text::texts(lines@);
            match r {
                Some(k) => raw.len() > 0 && opens_front_matter(raw[0]) && delimiter_from(raw, 1) == k
                    && 0 < k < raw.len(),
                None => !(raw.len() > 0 && opens_front_matter(raw[0]) && delimiter_from(raw, 1)
                    < raw.len()),
            }
        }),
{
    let ghost raw = text::texts(lines@);
    if lines.len() == 0 {
        return None;
    }
    let unix: [char; 4] = ['-', '-', '-', '\n'];
    let dos: [char; 5] = ['-', '-', '-', '\r', '\n'];
    assert(unix@ == seq!['-', '-', '-', '\n']);
    assert(dos@ == seq!['-', '-', '-', '\r', '\n']);
    assert(raw[0] == lines@[0]@);
    if !text::same_chars(&lines[0], &unix) && !text::same_chars(&lines[0], &dos) {
        return None;
    }
    let mut k: usize = 1;
    while k < lines.len()
        invariant
            1 <= k <= lines.len(),
            raw == text::texts(lines@),
            opens_front_matter(raw[0]),
            delimiter_from(raw, 1) == delimiter_from(raw, k as nat),
        decreases lines.len() - k,
    {
        assert(raw[k as int] == lines@[k as int]@);
        if line_is_delimiter(&lines[k]) {
            return Some(k);
        }
        k = k + 1;
    }
    None
}

/// Extracts the raw front matter from Markdown content: the YAML between the delimiters and the
/// byte at which the body starts. Returns `None` if no front matter block exists.
pub fn extract_raw_frontmatter(content: &str) -> (r: Option<(&str, usize)>)
    ensures
        match r {
            Some((yaml, body_start)) => raw_yaml(content@) == Some(yaml@) && body_start
                == text::byte_len(header_of(content@)),
            None => raw_yaml(content@) is None,
        },
{
    let bytes = content.as_bytes();
    let size = bytes.len();
    let chars = text::to_chars(content);
    let lines = text::split_lines(&chars);
    match find_closing_line(&lines) {
        None => None,
        Some(k) => {
            let ghost raw = text::texts(lines@);
            let mut header: Vec<char> = Vec::new();
            text::append_parts(&mut header, &lines, 0, k + 1);
            let mut upto: Vec<char> = Vec::new();
            text::append_parts(&mut upto, &lines, 0, k);
            proof {
                lemma_header(content@);
                assert(raw.subrange(0, k as int + 1) =~= raw.take(k as int + 1));
                assert(header@ =~= header_of(content@));
                text::lemma_byte_len_prefix(content@, header@.len() as int);
                assert(content@.take(header@.len() as int) =~= header@);
                assert(size == text::byte_len(content@));
                assert(raw.subrange(0, k as int) =~= raw.take(k as int));
                assert(upto@ =~= text::concat(raw.take(k as int)));
                text::lemma_concat_add(raw.take(k as int), seq![raw[k as int]]);
                assert(raw.take(k as int) + seq![raw[k as int]] =~= raw.take(k as int + 1));
                text::lemma_concat_add(seq![raw[0]], raw.subrange(1, k as int));
                assert(seq![raw[0]] + raw.subrange(1, k as int) =~= raw.take(k as int));
                reveal_with_fuel(text::concat, 2);
                assert(text::concat(seq![raw[0]]) =~= raw[0]);
                assert(lines@[0]@ == raw[0]);
            }
            let from = lines[0].len();
            let yaml = content.substring_char(from, upto.len());
            proof {
                assert(upto@ =~= header@.take(upto@.len() as int));
                assert(content@.subrange(from as int, upto@.len() as int) =~= upto@.skip(
                    from as int,
                ));
                assert(upto@.skip(from as int) =~= text::concat(raw.subrange(1, k as int)));
            }
            Some((yaml, text::byte_count(&header)))
        },
    }
}

/// Gets the body content (everything after the front matter).
pub fn get_body(content: &str) -> (r: &str)
    ensures
        r@ == body_of(content@),
{
    let chars = text::to_chars(content);
    let lines = text::split_lines(&chars);
    match find_closing_line(&lines) {
        None => {
            assert(body_of(content@) =~= content@);
            content
        },
        Some(k) => {
            let mut header: Vec<char> = Vec::new();
            text::append_parts(&mut header, &lines, 0, k + 1);
            proof {
                let raw = text::texts(lines@);
                lemma_header(content@);
                assert(raw.subrange(0, k as int + 1) =~= raw.take(k as int + 1));
                assert(header@ =~= header_of(content@));
            }
            let body = content.substring_char(header.len(), chars.len());
            assert(body@ =~= body_of(content@));
            body
        },
    }
}

// ---------------------------------------------------------------------------
// Values
// ---------------------------------------------------------------------------

/// The name of the type of a JSON value.
pub open spec fn kind_name(v: JsonView) -> Seq<char> {
    match v {
        JsonView::Array(_) => "array"@,
        JsonView::Str(_) => "string"@,
        JsonView::Number(_) => "number"@,
        JsonView::Bool(_) => "boolean"@,
        JsonView::Null => "null"@,
        JsonView::Object(_) => "object"@,
    }
}

/// The fields in front matter that was read as YAML: it has to be a mapping.
pub open spec fn fields_of(parsed: Result<JsonView, Seq<char>>) -> Result<
    Map<Seq<char>, JsonView>,
    ErrorView,
> {
    match parsed {
        Err(message) => Err(ErrorView::Other("Frontmatter YAML parse error: "@ + message)),
        Ok(JsonView::Object(m)) => Ok(m),
        Ok(v) => Err(ErrorView::Other("Frontmatter must be a YAML mapping, got "@ + kind_name(v))),
    }
}

/// The fields of the front matter of a note; nothing if it has none.
pub open spec fn front_fields(content: Seq<char>) -> Result<
    Option<Map<Seq<char>, JsonView>>,
    ErrorView,
> {
    match raw_yaml(content) {
        None => Ok(None),
        Some(yaml) => if text::trim(yaml).len() == 0 {
            Ok(Some(Map::empty()))
        } else {
            match fields_of(json::yaml_json_of(yaml)) {
                Ok(m) => Ok(Some(m)),
                Err(e) => Err(e),
            }
        },
    }
}

/// The mathematical form of front matter that was parsed.
pub open spec fn parsed_result(r: Result<Option<serde_json::Value>, VaultError>) -> Result<
    Option<JsonView>,
    ErrorView,
> {
    match r {
        Ok(Some(v)) => Ok(Some(json::json_view(v))),
        Ok(None) => Ok(None),
        Err(e) => Err(e@),
    }
}

/// Fields as a value.
pub open spec fn as_object(r: Result<Option<Map<Seq<char>, JsonView>>, ErrorView>) -> Result<
    Option<JsonView>,
    ErrorView,
> {
    match r {
        Ok(Some(m)) => Ok(Some(JsonView::Object(m))),
        Ok(None) => Ok(None),
        Err(e) => Err(e),
    }
}

/// The name of the type of a value.
fn json_kind_name(value: &serde_json::Value) -> (r: &'static str)
    ensures
        r@ == kind_name(json::json_view(*value)),
{
    match json::json_kind(value) {
        JsonKind::Array(_) => "array",
        JsonKind::Str(_) => "string",
        JsonKind::Number => "number",
        JsonKind::Bool(_) => "boolean",
        JsonKind::Null => "null",
        JsonKind::Object(_) => "object",
    }
}

/// The mathematical form of a parsed value or its message.
pub open spec fn parsed_view(parsed: Result<serde_json::Value, String>) -> Result<
    JsonView,
    Seq<char>,
> {
    match parsed {
        Ok(v) => Ok(json::json_view(v)),
        Err(m) => Err(m@),
    }
}

/// Checks that front matter that was read as YAML is a mapping.
pub fn check_mapping(parsed: Result<serde_json::Value, String>) -> (r: Result<
    serde_json::Value,
    VaultError,
>)
    ensures
        match r {
            Ok(v) => parsed == Ok::<serde_json::Value, String>(v) && fields_of(parsed_view(parsed))
                is Ok,
            Err(e) => fields_of(parsed_view(parsed)) == Err::<
                Map<Seq<char>, JsonView>,
                ErrorView,
            >(e@),
        },
{
    match parsed {
        Err(m) => {
            let mut message = "Frontmatter YAML parse error: ".to_owned();
            message.push_str(&m);
            Err(VaultError::Other(message))
        },
        Ok(v) => {
            if let JsonKind::Object(_) = json::json_kind(&v) {
                return Ok(v);
            }
            let mut message = "Frontmatter must be a YAML mapping, got ".to_owned();
            message.push_str(json_kind_name(&v));
            Err(VaultError::Other(message))
        },
    }
}

/// Parses the front matter YAML into a JSON object. Returns `None` if no front matter exists,
/// `Err` on YAML that is malformed or no mapping.
pub fn parse_frontmatter(content: &str) -> (r: Result<Option<serde_json::Value>, VaultError>)
    ensures
        parsed_result(r) == as_object(front_fields(content@)),
{
    let yaml = match extract_raw_frontmatter(content) {
        None => {
            return Ok(None);
        },
        Some((yaml, _)) => yaml,
    };
    let chars = text::to_chars(yaml);
    if text::trimmed(&chars).len() == 0 {
        return Ok(Some(json::json_object(json::json_map_new())));
    }
    match check_mapping(json::parse_yaml_as_json(yaml)) {
        Ok(v) => Ok(Some(v)),
        Err(e) => Err(e),
    }
}

/// The value of a field.
pub open spec fn field_of(v: JsonView, key: Seq<char>) -> Option<JsonView> {
    match v {
        JsonView::Object(m) => if m.contains_key(key) {
            Some(m[key])
        } else {
            None
        },
        _ => None,
    }
}

/// Gets the value of a field, if the value is an object that has it.
pub fn get_field<'a>(value: &'a serde_json::Value, key: &str) -> (r: Option<&'a serde_json::Value>)
    ensures
        match r {
            Some(v) => field_of(json::json_view(*value), key@) == Some(json::json_view(*v)),
            None => field_of(json::json_view(*value), key@) is None,
        },
{
    match json::json_kind(value) {
        JsonKind::Object(m) => json::json_map_get(m, key),
        _ => None,
    }
}

/// The strings among the first `k` elements of a list: strings as they are, other values as
/// JSON text, nulls left out.
pub open spec fn listed(items: Seq<JsonView>, k: nat) -> Seq<Seq<char>>
    decreases k,
{
    if k == 0 {
        Seq::empty()
    } else {
        let before = listed(items, (k - 1) as nat);
        match items[k - 1] {
            JsonView::Str(s) => before.push(s),
            JsonView::Null => before,
            v => before.push(json::json_text_of(v)),
        }
    }
}

/// The parts among the first `k` that hold more than white space, trimmed.
pub open spec fn nonblank(parts: Seq<Seq<char>>, k: nat) -> Seq<Seq<char>>
    decreases k,
{
    if k == 0 {
        Seq::empty()
    } else {
        let before = nonblank(parts, (k - 1) as nat);
        if text::trim(parts[k - 1]).len() > 0 {
            before.push(text::trim(parts[k - 1]))
        } else {
            before
        }
    }
}

/// The strings that a field lists: the elements of an array, or the parts of a string between
/// its commas.
pub open spec fn string_list(value: JsonView, key: Seq<char>) -> Seq<Seq<char>> {
    match field_of(value, key) {
        Some(JsonView::Array(items)) => listed(items, items.len()),
        Some(JsonView::Str(s)) => {
            let parts = text::split(s, seq![',']);
            nonblank(parts, parts.len())
        },
        _ => Seq::empty(),
    }
}

/// Splits a string at its commas and drops blank parts.
fn comma_list(s: &str) -> (r: Vec<String>)
    ensures
        text::strings(r@) == nonblank(
            text::split(s@, seq![',']),
            text::split(s@, seq![',']).len(),
        ),
{
    let chars = text::to_chars(s);
    let comma: [char; 1] = [','];
    assert(comma@ == seq![',']);
    let parts = text::split_on(&chars, &comma);
    let ghost ps = text::texts(parts@);
    let mut r: Vec<String> = Vec::new();
    let mut k: usize = 0;
    while k < parts.len()
        invariant
            k <= parts.len(),
            ps == text::texts(parts@),
            text::strings(r@) == nonblank(ps, k as nat),
        decreases parts.len() - k,
    {
        let ghost before = r@;
        assert(ps[k as int] == parts@[k as int]@);
        let part = text::trimmed(&parts[k]);
        if part.len() > 0 {
            let item = text::from_chars(part);
            r.push(item);
            assert(text::strings(r@) =~= text::strings(before).push(item@));
        }
        k = k + 1;
    }
    r
}

/// Extracts a string list from a front matter field.
fn extract_string_list(frontmatter: &serde_json::Value, key: &str) -> (r: Vec<String>)
    ensures
        text::strings(r@) == string_list(json::json_view(*frontmatter), key@),
{
    let mut r: Vec<String> = Vec::new();
    assert(text::strings(r@) =~= Seq::<Seq<char>>::empty());
    let value = match get_field(frontmatter, key) {
        None => {
            return r;
        },
        Some(v) => v,
    };
    match json::json_kind(value) {
        JsonKind::Array(items) => {
            let ghost all = json::json_views(items@);
            let mut k: usize = 0;
            while k < items.len()
                invariant
                    k <= items.len(),
                    all == json::json_views(items@),
                    text::strings(r@) == listed(all, k as nat),
                decreases items.len() - k,
            {
                let ghost before = r@;
                let item = &items[k];
                assert(all[k as int] == json::json_view(*item));
                match json::json_kind(item) {
                    JsonKind::Str(s) => {
                        r.push(s.clone());
                        assert(text::strings(r@) =~= text::strings(before).push(s@));
                    },
                    JsonKind::Null => {},
                    _ => {
                        let shown = json::json_to_text(item);
                        r.push(shown);
                        assert(text::strings(r@) =~= text::strings(before).push(shown@));
                    },
                }
                k = k + 1;
            }
            r
        },
        JsonKind::Str(s) => comma_list(s),
        _ => r,
    }
}

/// Extracts tags from front matter: an array, or a string with commas.
pub fn extract_frontmatter_tags(frontmatter: &serde_json::Value) -> (r: Vec<String>)
    ensures
        text::strings(r@) == string_list(json::json_view(*frontmatter), "tags"@),
{
    extract_string_list(frontmatter, "tags")
}

/// Extracts aliases from front matter: an array, or a string with commas.
pub fn extract_aliases(frontmatter: &serde_json::Value) -> (r: Vec<String>)
    ensures
        text::strings(r@) == string_list(json::json_view(*frontmatter), "aliases"@),
{
    extract_string_list(frontmatter, "aliases")
}

// ---------------------------------------------------------------------------
// Changes
// ---------------------------------------------------------------------------

/// A note made of the text of its front matter and a body.
pub open spec fn joined_note(yaml: Seq<char>, body: Seq<char>) -> Seq<char> {
    seq!['-', '-', '-', '\n'] + yaml + seq!['-', '-', '-', '\n'] + body
}

/// A note made of front matter and a body. Front matter that is no object, has no fields or
/// cannot be written is left out.
pub open spec fn rebuilt(frontmatter: Option<JsonView>, body: Seq<char>) -> Seq<char> {
    match frontmatter {
        Some(JsonView::Object(m)) => if m == Map::<Seq<char>, JsonView>::empty() {
            body
        } else {
            match json::yaml_text_of_json(JsonView::Object(m)) {
                Ok(yaml) => joined_note(yaml, body),
                Err(_) => body,
            }
        },
        _ => body,
    }
}

/// A note after a field of its front matter was set.
pub open spec fn with_field(content: Seq<char>, key: Seq<char>, value: JsonView) -> Result<
    Seq<char>,
    ErrorView,
> {
    match front_fields(content) {
        Err(e) => Err(e),
        Ok(fields) => {
            let m = match fields {
                Some(m) => m,
                None => Map::empty(),
            };
            Ok(rebuilt(Some(JsonView::Object(m.insert(key, value))), body_of(content)))
        },
    }
}

/// A note after a field of its front matter was removed.
pub open spec fn without_field(content: Seq<char>, key: Seq<char>) -> Result<Seq<char>, ErrorView> {
    match front_fields(content) {
        Err(e) => Err(e),
        Ok(None) => Ok(content),
        Ok(Some(m)) => if !m.contains_key(key) {
            Ok(content)
        } else {
            Ok(rebuilt(Some(JsonView::Object(m.remove(key))), body_of(content)))
        },
    }
}

/// Puts the text of front matter in front of a body.
pub fn join_note(yaml: &str, body: &str) -> (r: String)
    ensures
        r@ == joined_note(yaml@, body@),
{
    let line: [char; 4] = ['-', '-', '-', '\n'];
    let mut out = text::copy_chars(&line);
    assert(line@ == seq!['-', '-', '-', '\n']);
    text::append_chars(&mut out, &text::to_chars(yaml));
    text::append_chars(&mut out, &line);
    text::append_chars(&mut out, &text::to_chars(body));
    text::from_chars(&out)
}

/// Rebuilds full file content from a front matter value and a body.
pub fn rebuild_content(frontmatter: Option<&serde_json::Value>, body: &str) -> (r: String)
    ensures
        r@ == rebuilt(
            match frontmatter {
                Some(v) => Some(json::json_view(*v)),
                None => None,
            },
            body@,
        ),
{
    let value = match frontmatter {
        None => {
            return body.to_owned();
        },
        Some(v) => v,
    };
    let filled = match json::json_kind(value) {
        JsonKind::Object(m) => !json::json_map_is_empty(m),
        _ => false,
    };
    if !filled {
        return body.to_owned();
    }
    match json::json_to_yaml(value) {
        Ok(yaml) => join_note(&yaml, body),
        Err(_) => body.to_owned(),
    }
}

/// Sets a field in the front matter, which is created if it does not exist. Returns the modified
/// full file content.
pub fn set_frontmatter_field(content: &str, key: &str, value: serde_json::Value) -> (r: Result<
    String,
    VaultError,
>)
    ensures
        crate::error::text_result(r) == with_field(content@, key@, json::json_view(value)),
{
    let body = get_body(content);
    let mut fields = match parse_frontmatter(content) {
        Err(e) => {
            return Err(e);
        },
        Ok(None) => json::json_map_new(),
        Ok(Some(v)) => match json::json_into_object(v) {
            Some(m) => m,
            None => json::json_map_new(),
        },
    };
    json::json_map_insert(&mut fields, key.to_owned(), value);
    Ok(rebuild_content(Some(&json::json_object(fields)), body))
}

/// Removes a field from the front matter. Returns the modified full file content, which is
/// unchanged if the field or the front matter does not exist.
pub fn remove_frontmatter_field(content: &str, key: &str) -> (r: Result<String, VaultError>)
    ensures
        crate::error::text_result(r) == without_field(content@, key@),
{
    let mut fields = match parse_frontmatter(content) {
        Err(e) => {
            return Err(e);
        },
        Ok(None) => {
            return Ok(content.to_owned());
        },
        Ok(Some(v)) => match json::json_into_object(v) {
            Some(m) => m,
            None => json::json_map_new(),
        },
    };
    if json::json_map_get(&fields, key).is_none() {
        return Ok(content.to_owned());
    }
    json::json_map_remove(&mut fields, key);
    let body = get_body(content);
    Ok(rebuild_content(Some(&json::json_object(fields)), body))
}

// ---------------------------------------------------------------------------
// Laws
// ---------------------------------------------------------------------------

/// A note is its front matter, delimiters included, and its body.
pub proof fn law_note_is_header_and_body(content: Seq<char>)
    ensures
        header_of(content) + body_of(content) == content,
        raw_yaml(content) is None ==> body_of(content) == content,
{
    lemma_header(content);
    if raw_yaml(content) is None {
        assert(body_of(content) =~= content);
    }
}

/// Whether a text can stand between delimiters: it is made of complete lines, and none of them
/// is a delimiter.
pub open spec fn fits_between_delimiters(yaml: Seq<char>) -> bool {
    &&& yaml.len() == 0 || yaml.last() == '\n'
    &&& forall|i: int|
        0 <= i < text::raw_lines(yaml).len() ==> !is_delimiter(#[trigger] text::raw_lines(yaml)[i])
}

pub proof fn lemma_delimiter_found(lines: Seq<Seq<char>>, k: nat, at: nat)
    requires
        k <= at < lines.len(),
        is_delimiter(lines[at as int]),
        forall|i: int| k <= i < at ==> !is_delimiter(#[trigger] lines[i]),
    ensures
        delimiter_from(lines, k) == at,
    decreases at - k,
{
    if k < at {
        lemma_delimiter_found(lines, k + 1, at);
    }
}

/// A note that is put together from YAML and a body comes apart into them.
pub proof fn law_joined_note_comes_apart(yaml: Seq<char>, body: Seq<char>)
    requires
        fits_between_delimiters(yaml),
    ensures
        raw_yaml(joined_note(yaml, body)) == Some(yaml),
        body_of(joined_note(yaml, body)) == body,
{
    let line = seq!['-', '-', '-', '\n'];
    let note = joined_note(yaml, body);
    let ys = text::raw_lines(yaml);
    let bs = text::raw_lines(body);
    text::lemma_raw_lines_single(line);
    text::lemma_raw_lines_add(line, body);
    text::lemma_raw_lines_add(yaml, line + body);
    text::lemma_raw_lines_add(line, yaml + (line + body));
    assert(note =~= line + (yaml + (line + body)));
    let lines = text::raw_lines(note);
    assert(lines =~= seq![line] + (ys + (seq![line] + bs)));
    let k = ys.len() + 1;
    assert(lines[k as int] == line);
    assert(is_delimiter(line)) by {
        reveal_with_fuel(patch::strip_breaks, 3);
        assert(line.drop_last() =~= seq!['-', '-', '-']);
    }
    assert forall|i: int| 1 <= i < k implies !is_delimiter(#[trigger] lines[i]) by {
        assert(lines[i] == ys[i - 1]);
    }
    lemma_delimiter_found(lines, 1, k);
    assert(lines[0] == line);
    assert(lines.subrange(1, k as int) =~= ys);
    text::lemma_concat_raw_lines(yaml);
    lemma_header(note);
    assert(lines.skip(k as int + 1) =~= bs);
    text::lemma_concat_raw_lines(body);
}

/// Setting or removing a field leaves the body of a note exactly as it was, wherever the YAML
/// that was written fits between delimiters.
pub proof fn law_body_survives_rebuilding(fields: Map<Seq<char>, JsonView>, body: Seq<char>)
    requires
        fields != json::no_fields(),
        json::yaml_text_of_json(JsonView::Object(fields)) matches Ok(yaml)
            && fits_between_delimiters(yaml),
    ensures
        body_of(rebuilt(Some(JsonView::Object(fields)), body)) == body,
{
    let yaml = json::yaml_text_of_json(JsonView::Object(fields))->Ok_0;
    law_joined_note_comes_apart(yaml, body);
}

/// Setting a field gives it this value and keeps the other fields, wherever the YAML that was
/// written fits between delimiters and is read back as what was written.
pub proof fn law_set_field_reads_back(content: Seq<char>, key: Seq<char>, value: JsonView)
    requires
        front_fields(content) is Ok,
        ({
            let old_fields = match front_fields(content)->Ok_0 {
                Some(m) => m,
                None => Map::empty(),
            };
            let fields = JsonView::Object(old_fields.insert(key, value));
            json::yaml_text_of_json(fields) matches Ok(yaml) && fits_between_delimiters(yaml)
                && text::trim(yaml).len() > 0 && json::yaml_json_of(yaml) == Ok::<
                JsonView,
                Seq<char>,
            >(fields)
        }),
    ensures
        ({
            let old_fields = match front_fields(content)->Ok_0 {
                Some(m) => m,
                None => Map::empty(),
            };
            let written = with_field(content, key, value)->Ok_0;
            &&& with_field(content, key, value) is Ok
            &&& front_fields(written) == Ok::<Option<Map<Seq<char>, JsonView>>, ErrorView>(
                Some(old_fields.insert(key, value)),
            )
            &&& body_of(written) == body_of(content)
        }),
{
    let old_fields = match front_fields(content)->Ok_0 {
        Some(m) => m,
        None => Map::<Seq<char>, JsonView>::empty(),
    };
    let m = old_fields.insert(key, value);
    let yaml = json::yaml_text_of_json(JsonView::Object(m))->Ok_0;
    law_joined_note_comes_apart(yaml, body_of(content));
    assert(m.contains_key(key));
    assert(m != Map::<Seq<char>, JsonView>::empty());
}

/// Front matter that is malformed is not overwritten: setting and removing a field both report
/// it.
pub proof fn law_malformed_front_matter_is_reported(
    content: Seq<char>,
    key: Seq<char>,
    value: JsonView,
)
    requires
        front_fields(content) is Err,
    ensures
        with_field(content, key, value) == Err::<Seq<char>, ErrorView>(front_fields(content)->Err_0),
        without_field(content, key) == Err::<Seq<char>, ErrorView>(front_fields(content)->Err_0),
{
}

/// Setting a field on a note without front matter and removing it again gives the note back,
/// wherever the YAML that was written fits between delimiters and is read back as what was
/// written.
pub proof fn law_remove_undoes_set(content: Seq<char>, key: Seq<char>, value: JsonView)
    requires
        raw_yaml(content) is None,
        ({
            let fields = JsonView::Object(json::no_fields().insert(key, value));
            json::yaml_text_of_json(fields) matches Ok(yaml) && fits_between_delimiters(yaml)
                && text::trim(yaml).len() > 0 && json::yaml_json_of(yaml) == Ok::<
                JsonView,
                Seq<char>,
            >(fields)
        }),
    ensures
        with_field(content, key, value) is Ok,
        without_field(with_field(content, key, value)->Ok_0, key) == Ok::<Seq<char>, ErrorView>(
            content,
        ),
{
    law_set_field_reads_back(content, key, value);
    law_note_is_header_and_body(content);
    let m = json::no_fields().insert(key, value);
    assert(m.remove(key) =~= Map::<Seq<char>, JsonView>::empty());
}

/// A delimiter is a line of three dashes and nothing but its end behind them.
pub proof fn law_delimiters(line: Seq<char>)
    ensures
        is_delimiter(line) <==> line.len() >= 3 && line[0] == '-' && line[1] == '-' && line[2] == '-'
            && forall|i: int| 3 <= i < line.len() ==> (#[trigger] line[i] == '\n' || line[i] == '\r'),
    decreases line.len(),
{
    if line.len() > 0 && (line.last() == '\n' || line.last() == '\r') {
        let d = line.drop_last();
        law_delimiters(d);
        if line.len() > 3 {
            if is_delimiter(d) {
                assert forall|i: int| 3 <= i < line.len() implies (#[trigger] line[i] == '\n'
                    || line[i] == '\r') by {
                    if i < d.len() {
                        assert(d[i] == line[i]);
                    }
                }
            }
            if forall|i: int| 3 <= i < line.len() ==> (#[trigger] line[i] == '\n' || line[i] == '\r') {
                assert forall|i: int| 3 <= i < d.len() implies (#[trigger] d[i] == '\n' || d[i]
                    == '\r') by {
                    assert(d[i] == line[i]);
                }
            }
        }
    } else {
        let dashes = seq!['-', '-', '-'];
        if line.len() == 3 && line[0] == '-' && line[1] == '-' && line[2] == '-' {
            assert(line =~= dashes);
        }
        if line.len() > 3 {
            assert(line[line.len() - 1] == line.last());
        }
    }
}

/// Front matter stands at the start of a note between a line of three dashes and the next
/// delimiter; what is behind that is the body. Lines may end in a carriage return and a line feed,
/// and the delimiter may be the end of the note.
pub proof fn law_front_matter_is_read(
    first: Seq<char>,
    yaml: Seq<char>,
    last: Seq<char>,
    body: Seq<char>,
)
    requires
        first == seq!['-', '-', '-', '\n'] || first == seq!['-', '-', '-', '\r', '\n'],
        fits_between_delimiters(yaml),
        last == first || (last == seq!['-', '-', '-'] && body.len() == 0),
    ensures
        raw_yaml(first + yaml + last + body) == Some(yaml),
        body_of(first + yaml + last + body) == body,
{
    let note = first + yaml + last + body;
    let ys = text::raw_lines(yaml);
    let bs = text::raw_lines(body);
    text::lemma_raw_lines_single(first);
    text::lemma_raw_lines_single(last);
    if body.len() > 0 {
        text::lemma_raw_lines_add(last, body);
    } else {
        assert(last + body =~= last);
        assert(bs =~= Seq::<Seq<char>>::empty());
        assert(text::raw_lines(last + body) =~= seq![last] + bs);
    }
    text::lemma_raw_lines_add(yaml, last + body);
    text::lemma_raw_lines_add(first, yaml + (last + body));
    assert(note =~= first + (yaml + (last + body)));
    let lines = text::raw_lines(note);
    assert(lines =~= seq![first] + (ys + (seq![last] + bs)));
    let k = ys.len() + 1;
    assert(lines[k as int] == last);
    law_delimiters(last);
    assert forall|i: int| 1 <= i < k implies !is_delimiter(#[trigger] lines[i]) by {
        assert(lines[i] == ys[i - 1]);
    }
    lemma_delimiter_found(lines, 1, k);
    assert(lines[0] == first);
    assert(lines.subrange(1, k as int) =~= ys);
    text::lemma_concat_raw_lines(yaml);
    lemma_header(note);
    assert(lines.skip(k as int + 1) =~= bs);
    text::lemma_concat_raw_lines(body);
}

/// A note that does not start with a line of just three dashes has no front matter, and one in
/// which no delimiter comes after that line has none either.
pub proof fn law_note_without_front_matter(content: Seq<char>)
    ensures
        content.len() < 4 ==> raw_yaml(content) is None,
        content.len() >= 4 && !(content[0] == '-' && content[1] == '-' && content[2] == '-' && (
        content[3] == '\n' || content[3] == '\r')) ==> raw_yaml(content) is None,
        (forall|i: int|
            1 <= i < text::raw_lines(content).len() ==> !is_delimiter(
                #[trigger] text::raw_lines(content)[i],
            )) ==> raw_yaml(content) is None,
        raw_yaml(content) is None ==> front_fields(content) == Ok::<
            Option<Map<Seq<char>, JsonView>>,
            ErrorView,
        >(None),
{
    let lines = text::raw_lines(content);
    if raw_yaml(content) is Some {
        lemma_delimiter_from(lines, 1);
        assert(is_delimiter(lines[delimiter_from(lines, 1) as int]));
        let first = lines[0];
        text::law_lines(content);
        assert(content.len() >= 4 && content[0] == first[0] && content[1] == first[1] && content[2]
            == first[2] && content[3] == first[3]) by {
            assert(lines =~= seq![first] + lines.drop_first());
            text::lemma_concat_add(seq![first], lines.drop_first());
            reveal_with_fuel(text::concat, 2);
            assert(seq![first].drop_first() =~= Seq::<Seq<char>>::empty());
            assert(text::concat(seq![first]) =~= first);
            assert(content =~= first + text::concat(lines.drop_first()));
        }
    }
}

/// Front matter that is blank has no fields; other front matter has the fields of its mapping,
/// and what is no mapping, or no YAML, is an error.
pub proof fn law_fields_of_front_matter(content: Seq<char>, yaml: Seq<char>)
    requires
        raw_yaml(content) == Some(yaml),
    ensures
        (forall|i: int| 0 <= i < yaml.len() ==> text::is_white(#[trigger] yaml[i]))
            ==> front_fields(content) == Ok::<Option<Map<Seq<char>, JsonView>>, ErrorView>(
            Some(Map::empty()),
        ),
        !(forall|i: int| 0 <= i < yaml.len() ==> text::is_white(#[trigger] yaml[i])) ==> {
            &&& (json::yaml_json_of(yaml) matches Ok(JsonView::Object(m)) ==> front_fields(content)
                == Ok::<Option<Map<Seq<char>, JsonView>>, ErrorView>(Some(m)))
            &&& (json::yaml_json_of(yaml) matches Ok(v) ==> v !is Object ==> front_fields(content)
                is Err)
            &&& (json::yaml_json_of(yaml) is Err ==> front_fields(content) is Err)
        },
{
    text::law_trimmed_text(yaml);
    let t = text::trim(yaml);
    let i = choose|i: int| #[trigger] text::is_trimmed_at(yaml, t, i);
    if t.len() > 0 {
        assert(t[0] == yaml[i]);
        assert(!text::is_white(yaml[i]));
    } else {
        assert forall|j: int| 0 <= j < yaml.len() implies text::is_white(#[trigger] yaml[j]) by {}
    }
}

proof fn lemma_nonblank(parts: Seq<Seq<char>>, k: nat, x: Seq<char>)
    requires
        k <= parts.len(),
    ensures
        nonblank(parts, k).contains(x) <==> x.len() > 0 && exists|i: int|
            0 <= i < k && text::trim(#[trigger] parts[i]) == x,
    decreases k,
{
    if k > 0 {
        let n = (k - 1) as nat;
        let before = nonblank(parts, n);
        let all = nonblank(parts, k);
        let t = text::trim(parts[k - 1]);
        lemma_nonblank(parts, n, x);
        if before.contains(x) {
            let i = choose|i: int| 0 <= i < before.len() && before[i] == x;
            assert(all[i] == x);
        }
        if t.len() > 0 {
            assert(all == before.push(t));
            assert(all[before.len() as int] == t);
            if all.contains(x) {
                let i = choose|i: int| 0 <= i < all.len() && all[i] == x;
                if i < before.len() {
                    assert(before[i] == x);
                }
            }
        }
    }
}

proof fn lemma_listed(items: Seq<JsonView>, k: nat, x: Seq<char>)
    requires
        k <= items.len(),
    ensures
        listed(items, k).contains(x) <==> exists|i: int|
            0 <= i < k && text_of_item(#[trigger] items[i]) == Some(x),
    decreases k,
{
    if k > 0 {
        let n = (k - 1) as nat;
        let before = listed(items, n);
        let all = listed(items, k);
        lemma_listed(items, n, x);
        if before.contains(x) {
            let i = choose|i: int| 0 <= i < before.len() && before[i] == x;
            assert(all[i] == x);
        }
        if let Some(t) = text_of_item(items[k - 1]) {
            assert(all == before.push(t));
            assert(all[before.len() as int] == t);
            if all.contains(x) {
                let i = choose|i: int| 0 <= i < all.len() && all[i] == x;
                if i < before.len() {
                    assert(before[i] == x);
                }
            }
        } else {
            assert(all == before);
        }
    }
}

/// The text of an element of a list: a text is itself, nothing has none, and any other value is
/// written out.
pub open spec fn text_of_item(v: JsonView) -> Option<Seq<char>> {
    if v is Null {
        None
    } else if v is Str {
        Some(v->Str_0)
    } else {
        Some(json::json_text_of(v))
    }
}

/// A list of texts in the front matter is written as a list, or as one text with commas. A list
/// gives the texts of its elements as they are; from a text come the parts between its commas,
/// without the white space around them and without those that are blank. Any other field gives
/// no text.
pub proof fn law_lists_of_texts(
    fields: Map<Seq<char>, JsonView>,
    key: Seq<char>,
    s: Seq<char>,
    items: Seq<JsonView>,
    x: Seq<char>,
)
    ensures
        fields.contains_key(key) && fields[key] == JsonView::Array(items) ==> (string_list(
            JsonView::Object(fields),
            key,
        ).contains(x) <==> exists|i: int|
            0 <= i < items.len() && text_of_item(#[trigger] items[i]) == Some(x)),
        fields.contains_key(key) && fields[key] == JsonView::Str(s) ==> (string_list(
            JsonView::Object(fields),
            key,
        ).contains(x) <==> x.len() > 0 && exists|i: int|
            0 <= i < text::split(s, seq![',']).len() && text::trim(
                #[trigger] text::split(s, seq![','])[i],
            ) == x),
        !fields.contains_key(key) || (fields[key] !is Array && fields[key] !is Str)
            ==> string_list(JsonView::Object(fields), key).len() == 0,
        text::join(text::split(s, seq![',']), seq![',']) == s,
{
    lemma_listed(items, items.len(), x);
    let parts = text::split(s, seq![',']);
    lemma_nonblank(parts, parts.len(), x);
    text::law_split_text(s, seq![',']);
}

/// The texts of a list come in the order of its elements.
pub proof fn law_order_of_listed_texts(items: Seq<JsonView>, item: JsonView)
    ensures
        listed(items.push(item), items.len() + 1) == match text_of_item(item) {
            Some(t) => listed(items, items.len()).push(t),
            None => listed(items, items.len()),
        },
{
    lemma_listed_prefix(items, item, items.len());
}

proof fn lemma_listed_prefix(items: Seq<JsonView>, item: JsonView, k: nat)
    requires
        k <= items.len(),
    ensures
        listed(items.push(item), k) == listed(items, k),
    decreases k,
{
    if k > 0 {
        assert(items.push(item)[k - 1] == items[k - 1]);
        lemma_listed_prefix(items, item, (k - 1) as nat);
    }
}

/// Removing a field that is not there leaves the note as it is. Removing one that is there keeps
/// the others and the body, wherever the YAML that was written fits between delimiters and is
/// read back as what was written; with the last field the front matter goes too.
pub proof fn law_removed_field(content: Seq<char>, key: Seq<char>, m: Map<Seq<char>, JsonView>)
    requires
        front_fields(content) == Ok::<Option<Map<Seq<char>, JsonView>>, ErrorView>(Some(m)),
    ensures
        !m.contains_key(key) ==> without_field(content, key) == Ok::<Seq<char>, ErrorView>(content),
        m.contains_key(key) && m.remove(key) == json::no_fields() ==> without_field(content, key)
            == Ok::<Seq<char>, ErrorView>(body_of(content)),
        m.contains_key(key) && m.remove(key) != json::no_fields() && (json::yaml_text_of_json(
            JsonView::Object(m.remove(key)),
        ) matches Ok(yaml) && fits_between_delimiters(yaml) && text::trim(yaml).len() > 0
            && json::yaml_json_of(yaml) == Ok::<JsonView, Seq<char>>(
            JsonView::Object(m.remove(key)),
        )) ==> {
            let written = without_field(content, key)->Ok_0;
            &&& without_field(content, key) is Ok
            &&& front_fields(written) == Ok::<Option<Map<Seq<char>, JsonView>>, ErrorView>(
                Some(m.remove(key)),
            )
            &&& body_of(written) == body_of(content)
        },
{
    let left = m.remove(key);
    if left != json::no_fields() {
        if let Ok(yaml) = json::yaml_text_of_json(JsonView::Object(left)) {
            if fits_between_delimiters(yaml) {
                law_joined_note_comes_apart(yaml, body_of(content));
            }
        }
    }
}

/// Front matter that is no mapping is reported by the kind of value that it is.
pub proof fn law_kinds_in_errors(
    items: Seq<JsonView>,
    s: Seq<char>,
    b: bool,
)
    ensures
        ({
            let got = "Frontmatter must be a YAML mapping, got "@;
            &&& fields_of(Ok(JsonView::Array(items))) == Err::<Map<Seq<char>, JsonView>, ErrorView>(
                ErrorView::Other(got + seq!['a', 'r', 'r', 'a', 'y']),
            )
            &&& fields_of(Ok(JsonView::Str(s))) == Err::<Map<Seq<char>, JsonView>, ErrorView>(
                ErrorView::Other(got + seq!['s', 't', 'r', 'i', 'n', 'g']),
            )
            &&& fields_of(Ok(JsonView::Number(s))) == Err::<Map<Seq<char>, JsonView>, ErrorView>(
                ErrorView::Other(got + seq!['n', 'u', 'm', 'b', 'e', 'r']),
            )
            &&& fields_of(Ok(JsonView::Bool(b))) == Err::<Map<Seq<char>, JsonView>, ErrorView>(
                ErrorView::Other(got + seq!['b', 'o', 'o', 'l', 'e', 'a', 'n']),
            )
            &&& fields_of(Ok(JsonView::Null)) == Err::<Map<Seq<char>, JsonView>, ErrorView>(
                ErrorView::Other(got + seq!['n', 'u', 'l', 'l']),
            )
            &&& fields_of(Err(s)) == Err::<Map<Seq<char>, JsonView>, ErrorView>(
                ErrorView::Other("Frontmatter YAML parse error: "@ + s),
            )
        }),
{
    reveal_strlit("array");
    reveal_strlit("string");
    reveal_strlit("number");
    reveal_strlit("boolean");
    reveal_strlit("null");
    assert("array"@ =~= seq!['a', 'r', 'r', 'a', 'y']);
    assert("string"@ =~= seq!['s', 't', 'r', 'i', 'n', 'g']);
    assert("number"@ =~= seq!['n', 'u', 'm', 'b', 'e', 'r']);
    assert("boolean"@ =~= seq!['b', 'o', 'o', 'l', 'e', 'a', 'n']);
    assert("null"@ =~= seq!['n', 'u', 'l', 'l']);
}

} // verus!
