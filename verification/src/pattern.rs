//! Regular expressions of the `regex` crate.
use crate::text;
use vstd::prelude::*;

verus! {

/// A compiled regular expression of `regex`.
#[verifier::external_type_specification]
#[verifier::external_body]
pub struct ExRegex(regex::Regex);

/// The pattern that a regular expression was compiled from.
pub uninterp spec fn regex_pattern(re: regex::Regex) -> Seq<char>;

/// The message with which `Regex::new` of `regex` refuses a pattern; nothing for a pattern that
/// it accepts.
pub uninterp spec fn regex_error(pattern: Seq<char>) -> Option<Seq<char>>;

/// The matches that `Regex::captures_iter` of `regex` finds in a text for a pattern: for each
/// match the bytes that its groups span, the whole match first.
pub uninterp spec fn captures_of(pattern: Seq<char>, text: Seq<char>) -> Seq<
    Seq<Option<(usize, usize)>>,
>;

/// Whether a character has a meaning of its own in a pattern.
pub open spec fn is_meta(c: char) -> bool {
    match c {
        '\\' | '.' | '+' | '*' | '?' | '(' | ')' | '|' | '[' | ']' | '{' | '}' | '^' | '$' | '#' | '&' | '-'
        | '~' => true,
        _ => false,
    }
}

/// The pattern that stands for a text itself: characters with a meaning of their own come after a
/// backslash.
pub open spec fn escaped(text: Seq<char>) -> Seq<char>
    decreases text.len(),
{
    if text.len() == 0 {
        Seq::empty()
    } else {
        escaped(text.drop_last()) + if is_meta(text.last()) {
            seq!['\\', text.last()]
        } else {
            seq![text.last()]
        }
    }
}

/// Where the groups of a match lie.
pub open spec fn spans(v: Seq<Vec<Option<(usize, usize)>>>) -> Seq<Seq<Option<(usize, usize)>>> {
    v.map_values(|x: Vec<Option<(usize, usize)>>| x@)
}

/// The byte at which a group starts.
pub open spec fn start_of(group: Option<(usize, usize)>) -> int {
    match group {
        Some((a, b)) => a as int,
        None => 0,
    }
}

/// The byte at which a group ends.
pub open spec fn end_of(group: Option<(usize, usize)>) -> int {
    match group {
        Some((a, b)) => b as int,
        None => 0,
    }
}

/// Whether matches lie in a text: each has the whole match as its first group, every group
/// starts before its end and ends in the text, and no match starts before the end of another
/// one that comes before it.
pub open spec fn spans_fit(all: Seq<Seq<Option<(usize, usize)>>>, size: nat) -> bool {
    &&& forall|i: int| 0 <= i < all.len() ==> (#[trigger] all[i]).len() > 0 && all[i][0] is Some
    &&& forall|i: int, g: int|
        0 <= i < all.len() && 0 <= g < all[i].len() ==> (#[trigger] all[i][g] matches Some((a, b))
            ==> a <= b <= size)
    &&& forall|i: int, j: int|
        0 <= i < j < all.len() ==> end_of(#[trigger] all[i][0]) <= start_of(#[trigger] all[j][0])
}

/// `Regex::new` of `regex`: whether a pattern is accepted, and the message if not, depends on
/// the pattern alone.
#[verifier::external_body]
pub(crate) fn compile(pattern: &str) -> (r: Result<regex::Regex, String>)
    ensures
        match r {
            Ok(re) => regex_pattern(re) == pattern@ && regex_error(pattern@) is None,
            Err(e) => regex_error(pattern@) == Some(e@),
        },
{
    match regex::Regex::new(pattern) {
        Ok(re) => Ok(re),
        Err(e) => Err(e.to_string()),
    }
}

/// `Regex::captures_iter` of `regex`: which matches are found depends on the pattern and the
/// text alone; each match is its own first group, groups lie in the text, and the matches
/// follow each other without overlapping.
#[verifier::external_body]
pub(crate) fn captures_all(re: &regex::Regex, text: &str) -> (r: Vec<Vec<Option<(usize, usize)>>>)
    ensures
        spans(r@) == captures_of(regex_pattern(*re), text@),
        spans_fit(spans(r@), text::byte_len(text@)),
{
    re.captures_iter(text)
        .map(|c| c.iter().map(|g| g.map(|m| (m.start(), m.end()))).collect())
        .collect()
}

/// `regex::escape`: a backslash is put before each character that has a meaning of its own.
#[verifier::external_body]
pub(crate) fn escape(text: &str) -> (r: String)
    ensures
        r@ == escaped(text@),
{
    regex::escape(text)
}

/// The matches of a pattern in a text; none if the pattern is refused.
pub open spec fn matches_of(pattern: Seq<char>, text: Seq<char>) -> Seq<
    Seq<Option<(usize, usize)>>,
> {
    if regex_error(pattern) is None {
        captures_of(pattern, text)
    } else {
        Seq::empty()
    }
}

/// Finds the matches of a pattern in a text; none if the pattern is refused.
pub(crate) fn find_matches(pattern: &str, text: &str) -> (r: Vec<Vec<Option<(usize, usize)>>>)
    ensures
        spans(r@) == matches_of(pattern@, text@),
        spans_fit(spans(r@), text::byte_len(text@)),
{
    match compile(pattern) {
        Ok(re) => captures_all(&re, text),
        Err(_) => {
            let r: Vec<Vec<Option<(usize, usize)>>> = Vec::new();
            assert(spans(r@) =~= Seq::<Seq<Option<(usize, usize)>>>::empty());
            r
        },
    }
}

// ---------------------------------------------------------------------------
// Laws
// ---------------------------------------------------------------------------

/// The characters that have a meaning of their own in a pattern.
pub open spec fn specials() -> Seq<char> {
    seq![
        '\\', '.', '+', '*', '?', '(', ')', '|', '[', ']', '{', '}', '^', '$', '#', '&', '-', '~',
    ]
}

/// The text that a pattern stands for if it stands for one text alone: every character with a
/// meaning of its own comes after a backslash, and every backslash before such a character.
pub open spec fn literal_of(p: Seq<char>) -> Option<Seq<char>>
    decreases p.len(),
{
    if p.len() == 0 {
        Some(Seq::empty())
    } else if p[0] == '\\' {
        if p.len() > 1 && specials().contains(p[1]) {
            match literal_of(p.skip(2)) {
                Some(rest) => Some(seq![p[1]] + rest),
                None => None,
            }
        } else {
            None
        }
    } else if specials().contains(p[0]) {
        None
    } else {
        match literal_of(p.drop_first()) {
            Some(rest) => Some(seq![p[0]] + rest),
            None => None,
        }
    }
}

proof fn lemma_specials(c: char)
    ensures
        specials().contains(c) <==> is_meta(c),
{
    let s = specials();
    if s.contains(c) {
        let i = choose|i: int| 0 <= i < s.len() && s[i] == c;
        assert(0 <= i < 18);
    }
    if is_meta(c) {
        assert(s[0] == '\\' && s[1] == '.' && s[2] == '+' && s[3] == '*' && s[4] == '?');
        assert(s[5] == '(' && s[6] == ')' && s[7] == '|' && s[8] == '[' && s[9] == ']');
        assert(s[10] == '{' && s[11] == '}' && s[12] == '^' && s[13] == '$' && s[14] == '#');
        assert(s[15] == '&' && s[16] == '-' && s[17] == '~');
    }
}

proof fn lemma_escaped_front(text: Seq<char>)
    requires
        text.len() > 0,
    ensures
        escaped(text) == (if is_meta(text[0]) {
            seq!['\\', text[0]]
        } else {
            seq![text[0]]
        }) + escaped(text.drop_first()),
    decreases text.len(),
{
    let d = text.drop_last();
    let r = text.drop_first();
    if text.len() == 1 {
        assert(d =~= Seq::<char>::empty());
        assert(r =~= Seq::<char>::empty());
        reveal_with_fuel(escaped, 2);
        assert(escaped(text) =~= (if is_meta(text[0]) {
            seq!['\\', text[0]]
        } else {
            seq![text[0]]
        }) + escaped(r));
    } else {
        lemma_escaped_front(d);
        assert(d.drop_first() =~= r.drop_last());
        assert(r.last() == text.last() && d[0] == text[0]);
        assert(escaped(text) =~= (if is_meta(text[0]) {
            seq!['\\', text[0]]
        } else {
            seq![text[0]]
        }) + escaped(r));
    }
}

/// An escaped text is a pattern that stands for that text alone.
pub proof fn law_escaped_text_is_literal(text: Seq<char>)
    ensures
        literal_of(escaped(text)) == Some(text),
    decreases text.len(),
{
    if text.len() > 0 {
        let c = text[0];
        let rest = text.drop_first();
        lemma_escaped_front(text);
        lemma_specials(c);
        law_escaped_text_is_literal(rest);
        let p = escaped(text);
        if is_meta(c) {
            assert(p.skip(2) =~= escaped(rest));
        } else {
            assert(p.drop_first() =~= escaped(rest));
        }
        assert(seq![c] + rest =~= text);
    } else {
        assert(text =~= Seq::<char>::empty());
    }
}

/// No match is found for a pattern that is refused, and else just what the pattern finds.
pub proof fn law_matches(pattern: Seq<char>, text: Seq<char>)
    ensures
        regex_error(pattern) is Some ==> matches_of(pattern, text).len() == 0,
        regex_error(pattern) is None ==> matches_of(pattern, text) == captures_of(pattern, text),
{
}

/// Escaping goes character by character.
pub proof fn lemma_escaped_add(a: Seq<char>, b: Seq<char>)
    ensures
        escaped(a + b) == escaped(a) + escaped(b),
    decreases b.len(),
{
    if b.len() == 0 {
        assert(a + b =~= a);
        assert(escaped(a) + escaped(b) =~= escaped(a));
    } else {
        let d = b.drop_last();
        lemma_escaped_add(a, d);
        assert((a + b).drop_last() =~= a + d);
        let e = if is_meta(b.last()) {
            seq!['\\', b.last()]
        } else {
            seq![b.last()]
        };
        assert((escaped(a) + escaped(d)) + e =~= escaped(a) + (escaped(d) + e));
    }
}

/// A text without special characters is its own pattern.
pub proof fn lemma_escaped_plain(a: Seq<char>)
    requires
        forall|i: int| 0 <= i < a.len() ==> !is_meta(#[trigger] a[i]),
    ensures
        escaped(a) == a,
    decreases a.len(),
{
    if a.len() > 0 {
        let d = a.drop_last();
        assert forall|i: int| 0 <= i < d.len() implies !is_meta(#[trigger] d[i]) by {
            assert(d[i] == a[i]);
        }
        lemma_escaped_plain(d);
        assert(!is_meta(a[a.len() - 1]));
        assert(d + seq![a.last()] =~= a);
    }
}

/// Escaping brings in no other character than the backslash.
pub proof fn lemma_escaped_lacks(a: Seq<char>, c: char)
    requires
        !a.contains(c),
        c != '\\',
    ensures
        !escaped(a).contains(c),
    decreases a.len(),
{
    if a.len() > 0 {
        let d = a.drop_last();
        assert(a.contains(a.last()));
        assert(!d.contains(c)) by {
            if d.contains(c) {
                let i = choose|i: int| 0 <= i < d.len() && d[i] == c;
                assert(a[i] == c);
            }
        }
        lemma_escaped_lacks(d, c);
        let e = escaped(a);
        let f = escaped(d);
        if e.contains(c) {
            let i = choose|i: int| 0 <= i < e.len() && e[i] == c;
            if i < f.len() {
                assert(f[i] == c);
            }
        }
    }
}

} // verus!
