//! Path exclusion logic: compile glob patterns and test vault-relative paths.
use crate::error::{ErrorView, VaultError};
use crate::text;
use vstd::prelude::*;

verus! {

// ---------------------------------------------------------------------------
// Globs
// ---------------------------------------------------------------------------

/// A glob pattern of `globset`.
#[verifier::external_type_specification]
#[verifier::external_body]
pub struct ExGlob(globset::Glob);

/// Glob patterns of `globset` that are to be matched together.
#[verifier::external_type_specification]
#[verifier::external_body]
pub struct ExGlobSetBuilder(globset::GlobSetBuilder);

/// Glob patterns of `globset` that are matched together.
#[verifier::external_type_specification]
#[verifier::external_body]
pub struct ExGlobSet(globset::GlobSet);

/// The pattern of a glob.
pub uninterp spec fn glob_pattern(g: globset::Glob) -> Seq<char>;

/// The patterns that a builder holds, in the order in which they were added.
pub uninterp spec fn builder_patterns(b: globset::GlobSetBuilder) -> Seq<Seq<char>>;

/// The patterns that a set was built from.
pub uninterp spec fn set_patterns(s: globset::GlobSet) -> Seq<Seq<char>>;

/// The message with which `Glob::new` of `globset` refuses a pattern.
pub uninterp spec fn glob_error(pattern: Seq<char>) -> Option<Seq<char>>;

/// The message with which `GlobSetBuilder::build` of `globset` refuses patterns.
pub uninterp spec fn glob_set_error(patterns: Seq<Seq<char>>) -> Option<Seq<char>>;

/// Whether a glob pattern of `globset` matches a path.
pub uninterp spec fn glob_matches(pattern: Seq<char>, path: Seq<char>) -> bool;

/// `Glob::new` of `globset`: whether a pattern is accepted, and the message if not, depends on
/// the pattern alone.
#[verifier::external_body]
fn glob_new(pattern: &str) -> (r: Result<globset::Glob, String>)
    ensures
        match r {
            Ok(g) => glob_pattern(g) == pattern@ && glob_error(pattern@) is None,
            Err(e) => glob_error(pattern@) == Some(e@),
        },
{
    match globset::Glob::new(pattern) {
        Ok(g) => Ok(g),
        Err(e) => Err(e.to_string()),
    }
}

/// `GlobSetBuilder::new` of `globset`: a builder without patterns.
#[verifier::external_body]
fn builder_new() -> (r: globset::GlobSetBuilder)
    ensures
        builder_patterns(r).len() == 0,
{
    globset::GlobSetBuilder::new()
}

/// `GlobSetBuilder::add` of `globset`: the pattern is added at the end.
#[verifier::external_body]
fn builder_add(b: &mut globset::GlobSetBuilder, g: globset::Glob)
    ensures
        builder_patterns(*final(b)) == builder_patterns(*old(b)).push(glob_pattern(g)),
{
    b.add(g);
}

/// `GlobSetBuilder::build` of `globset`: the set of the patterns that were added. Whether it can
/// be built, and the message if not, depends on the patterns alone.
#[verifier::external_body]
fn builder_build(b: &globset::GlobSetBuilder) -> (r: Result<globset::GlobSet, String>)
    ensures
        match r {
            Ok(s) => set_patterns(s) == builder_patterns(*b) && glob_set_error(builder_patterns(*b))
                is None,
            Err(e) => glob_set_error(builder_patterns(*b)) == Some(e@),
        },
{
    match b.build() {
        Ok(s) => Ok(s),
        Err(e) => Err(e.to_string()),
    }
}

/// Whether one of some patterns matches a path.
pub open spec fn any_matches(patterns: Seq<Seq<char>>, path: Seq<char>) -> bool {
    exists|i: int| 0 <= i < patterns.len() && glob_matches(#[trigger] patterns[i], path)
}

/// `GlobSet::is_match` of `globset`: whether one of the patterns of the set matches the path.
/// What a single pattern matches depends on the pattern and the path alone.
#[verifier::external_body]
fn set_is_match(s: &globset::GlobSet, path: &str) -> (r: bool)
    ensures
        (r == (exists|i: int|
            0 <= i < set_patterns(*s).len() && glob_matches(#[trigger] set_patterns(*s)[i], path@))),
{
    s.is_match(path)
}

// ---------------------------------------------------------------------------
// Exclusion
// ---------------------------------------------------------------------------

/// Compiled set of glob patterns for excluding vault paths from indexing.
pub struct ExcludeSet {
    set: globset::GlobSet,
    patterns: Vec<String>,
}

impl View for ExcludeSet {
    type V = Seq<Seq<char>>;

    closed spec fn view(&self) -> Seq<Seq<char>> {
        text::strings(self.patterns@)
    }
}

/// A pattern as it is used: trimmed, and with `/**` for a `/` at its end.
pub open spec fn normal_pattern(raw: Seq<char>) -> Seq<char> {
    let t = text::trim(raw);
    if t.len() > 0 && t.last() == '/' {
        t + seq!['*', '*']
    } else {
        t
    }
}

/// The patterns among the first `k` that are used: those that are not blank and that `globset`
/// accepts.
pub open spec fn accepted(raw: Seq<Seq<char>>, k: nat) -> Seq<Seq<char>>
    decreases k,
{
    if k == 0 {
        Seq::empty()
    } else {
        let before = accepted(raw, (k - 1) as nat);
        if text::trim(raw[k - 1]).len() > 0 && glob_error(normal_pattern(raw[k - 1])) is None {
            before.push(normal_pattern(raw[k - 1]))
        } else {
            before
        }
    }
}

/// Computes [`normal_pattern`] of a trimmed text.
fn normalize_pattern(trimmed: &[char]) -> (r: String)
    requires
        trimmed@.len() > 0,
    ensures
        r@ == if trimmed@.last() == '/' {
            trimmed@ + seq!['*', '*']
        } else {
            trimmed@
        },
{
    let mut out = text::copy_chars(trimmed);
    if trimmed[trimmed.len() - 1] == '/' {
        out.push('*');
        out.push('*');
        assert(out@ =~= trimmed@ + seq!['*', '*']);
    }
    text::from_chars(&out)
}

impl ExcludeSet {
    /// The set is built from the patterns that are listed.
    #[verifier::type_invariant]
    spec fn inv(self) -> bool {
        set_patterns(self.set) == text::strings(self.patterns@)
    }

    /// Compiles a list of raw patterns.
    ///
    /// Each pattern is trimmed, blank entries are skipped, and trailing `/` is normalized to
    /// `/**`. Invalid patterns are skipped.
    pub fn build(patterns: Vec<String>) -> (r: Result<Self, VaultError>)
        ensures
            ({
                let used = accepted(text::strings(patterns@), patterns.len() as nat);
                match r {
                    Ok(set) => set@ == used && glob_set_error(used) is None,
                    Err(e) => glob_set_error(used) matches Some(m) && e@ == ErrorView::Other(
                        "glob set compile: "@ + m,
                    ),
                }
            }),
    {
        let ghost raw = text::strings(patterns@);
        let mut builder = builder_new();
        let mut used: Vec<String> = Vec::new();
        assert(builder_patterns(builder) =~= Seq::<Seq<char>>::empty());
        assert(text::strings(used@) =~= Seq::<Seq<char>>::empty());
        let mut k: usize = 0;
        while k < patterns.len()
            invariant
                k <= patterns.len(),
                raw == text::strings(patterns@),
                text::strings(used@) == accepted(raw, k as nat),
                builder_patterns(builder) == accepted(raw, k as nat),
            decreases patterns.len() - k,
        {
            assert(raw[k as int] == patterns@[k as int]@);
            let chars = text::to_chars(&patterns[k]);
            let trimmed = text::trimmed(&chars);
            if trimmed.len() > 0 {
                let normal = normalize_pattern(trimmed);
                assert(normal@ == normal_pattern(raw[k as int]));
                if let Ok(glob) = glob_new(&normal) {
                    let ghost before = used@;
                    builder_add(&mut builder, glob);
                    used.push(normal);
                    assert(text::strings(used@) =~= text::strings(before).push(normal@));
                }
            }
            k = k + 1;
        }
        match builder_build(&builder) {
            Ok(set) => Ok(ExcludeSet { set, patterns: used }),
            Err(m) => {
                let mut message = "glob set compile: ".to_owned();
                message.push_str(&m);
                Err(VaultError::Other(message))
            },
        }
    }

    /// Checks whether a vault-relative path is excluded.
    pub fn is_excluded(&self, relative_path: &str) -> (r: bool)
        ensures
            r == any_matches(self@, relative_path@),
    {
        proof {
            use_type_invariant(self);
        }
        if self.is_empty() {
            return false;
        }
        set_is_match(&self.set, relative_path)
    }

    /// True when no patterns are configured.
    pub fn is_empty(&self) -> (r: bool)
        ensures
            r == (self@.len() == 0),
    {
        self.patterns.len() == 0
    }

    /// Active (accepted, normalized) patterns for diagnostics.
    pub fn patterns(&self) -> (r: &Vec<String>)
        ensures
            text::strings(r@) == self@,
    {
        &self.patterns
    }
}

/// A glob pattern by which files are picked.
pub struct GlobFilter {
    set: globset::GlobSet,
    pattern: String,
}

impl View for GlobFilter {
    type V = Seq<char>;

    closed spec fn view(&self) -> Seq<char> {
        self.pattern@
    }
}

/// The message with which a glob pattern is refused as a filter.
pub open spec fn filter_error(pattern: Seq<char>) -> Option<Seq<char>> {
    match glob_error(pattern) {
        Some(m) => Some(m),
        None => glob_set_error(seq![pattern]),
    }
}

impl GlobFilter {
    /// The set holds the pattern alone.
    #[verifier::type_invariant]
    spec fn inv(self) -> bool {
        set_patterns(self.set) =~= seq![self.pattern@]
    }

    /// Compiles a glob pattern.
    pub fn new(pattern: &str) -> (r: Result<Self, VaultError>)
        ensures
            match r {
                Ok(f) => f@ == pattern@ && filter_error(pattern@) is None,
                Err(e) => filter_error(pattern@) matches Some(m) && e@ == ErrorView::InvalidPath(
                    "invalid glob pattern: "@ + m,
                ),
            },
    {
        let mut builder = builder_new();
        assert(builder_patterns(builder) =~= Seq::<Seq<char>>::empty());
        let problem = match glob_new(pattern) {
            Ok(glob) => {
                builder_add(&mut builder, glob);
                assert(builder_patterns(builder) =~= seq![pattern@]);
                match builder_build(&builder) {
                    Ok(set) => {
                        return Ok(GlobFilter { set, pattern: pattern.to_owned() });
                    },
                    Err(m) => m,
                }
            },
            Err(m) => m,
        };
        let mut message = "invalid glob pattern: ".to_owned();
        message.push_str(&problem);
        Err(VaultError::InvalidPath(message))
    }

    /// Checks whether the pattern matches a path.
    pub fn is_match(&self, path: &str) -> (r: bool)
        ensures
            r == glob_matches(self@, path@),
    {
        proof {
            use_type_invariant(self);
            assert(set_patterns(self.set)[0] == self.pattern@);
        }
        set_is_match(&self.set, path)
    }
}

// ---------------------------------------------------------------------------
// Ignore files
// ---------------------------------------------------------------------------

/// Whether a line of an ignore file holds a pattern: it is not blank and no comment.
pub open spec fn holds_pattern(line: Seq<char>) -> bool {
    text::trim(line).len() > 0 && text::trim_start(line)[0] != '#'
}

/// The patterns on the first `k` lines.
pub open spec fn line_patterns(lines: Seq<Seq<char>>, k: nat) -> Seq<Seq<char>>
    decreases k,
{
    if k == 0 {
        Seq::empty()
    } else {
        let before = line_patterns(lines, (k - 1) as nat);
        if holds_pattern(lines[k - 1]) {
            before.push(text::trim(lines[k - 1]))
        } else {
            before
        }
    }
}

/// The patterns of an ignore file.
pub open spec fn ignore_patterns(content: Seq<char>) -> Seq<Seq<char>> {
    let lines = text::raw_lines(content);
    line_patterns(lines, lines.len())
}

/// Parses the content of an ignore file into raw pattern strings.
///
/// Lines starting with `#` (after trimming leading whitespace) are comments. Blank lines and
/// surrounding whitespace are stripped.
pub fn parse_ignore_lines(content: &str) -> (r: Vec<String>)
    ensures
        text::strings(r@) == ignore_patterns(content@),
{
    let chars = text::to_chars(content);
    let lines = text::split_lines(&chars);
    let ghost ls = text::texts(lines@);
    let mut r: Vec<String> = Vec::new();
    assert(text::strings(r@) =~= Seq::<Seq<char>>::empty());
    let mut k: usize = 0;
    while k < lines.len()
        invariant
            k <= lines.len(),
            ls == text::texts(lines@),
            text::strings(r@) == line_patterns(ls, k as nat),
        decreases lines.len() - k,
    {
        assert(ls[k as int] == lines@[k as int]@);
        let left = text::trimmed_start(&lines[k]);
        let trimmed = text::trimmed(&lines[k]);
        proof {
            text::lemma_trim_end(left@);
        }
        if trimmed.len() > 0 && left[0] != '#' {
            let ghost before = r@;
            let item = text::from_chars(trimmed);
            r.push(item);
            assert(text::strings(r@) =~= text::strings(before).push(item@));
        }
        k = k + 1;
    }
    r
}

/// Patterns of files and settings, in ascending order without repetitions.
pub open spec fn merged(
    home: Option<Seq<char>>,
    data: Option<Seq<char>>,
    extra: Seq<Seq<char>>,
) -> Seq<Seq<char>> {
    let a = match home {
        Some(c) => ignore_patterns(c),
        None => Seq::empty(),
    };
    let b = match data {
        Some(c) => ignore_patterns(c),
        None => Seq::empty(),
    };
    text::sorted_set(a + b + extra, (a + b + extra).len())
}

/// The text in an option.
pub open spec fn option_str(o: Option<&str>) -> Option<Seq<char>> {
    match o {
        Some(s) => Some(s@),
        None => None,
    }
}

/// Adds strings at the end of a list.
pub fn append_strings(out: &mut Vec<String>, more: &Vec<String>)
    ensures
        text::strings(final(out)@) == text::strings(old(out)@) + text::strings(more@),
{
    let ghost start = text::strings(out@);
    let ghost ms = text::strings(more@);
    let mut i: usize = 0;
    while i < more.len()
        invariant
            i <= more.len(),
            ms == text::strings(more@),
            text::strings(out@) =~= start + ms.take(i as int),
        decreases more.len() - i,
    {
        let ghost before = out@;
        out.push(more[i].clone());
        assert(text::strings(out@) =~= text::strings(before).push(more@[i as int]@));
        assert(ms[i as int] == more@[i as int]@);
        i = i + 1;
    }
    assert(ms.take(i as int) =~= ms);
}

/// Merges the ignore patterns of both config locations, given what their ignore files hold, with
/// the patterns of the settings: sorted and deduplicated. The second content is missing where
/// both locations are the same.
pub fn load_ignore_patterns(
    home_content: Option<&str>,
    data_content: Option<&str>,
    extra: &Vec<String>,
) -> (r: Vec<String>)
    ensures
        text::strings(r@) == merged(
            option_str(home_content),
            option_str(data_content),
            text::strings(extra@),
        ),
{
    let mut all: Vec<String> = Vec::new();
    assert(text::strings(all@) =~= Seq::<Seq<char>>::empty());
    if let Some(c) = home_content {
        append_strings(&mut all, &parse_ignore_lines(c));
    }
    let ghost a = match home_content {
        Some(c) => ignore_patterns(c@),
        None => Seq::<Seq<char>>::empty(),
    };
    assert(text::strings(all@) =~= a);
    if let Some(c) = data_content {
        append_strings(&mut all, &parse_ignore_lines(c));
    }
    let ghost b = match data_content {
        Some(c) => ignore_patterns(c@),
        None => Seq::<Seq<char>>::empty(),
    };
    assert(text::strings(all@) =~= a + b);
    append_strings(&mut all, extra);
    assert(text::strings(all@).len() == all@.len());
    text::sort_unique(&all)
}

// ---------------------------------------------------------------------------
// Laws
// ---------------------------------------------------------------------------

/// Without patterns nothing is excluded, and more patterns never exclude less.
pub proof fn law_exclusion_grows_with_patterns(
    patterns: Seq<Seq<char>>,
    more: Seq<Seq<char>>,
    path: Seq<char>,
)
    ensures
        !any_matches(Seq::empty(), path),
        any_matches(patterns, path) ==> any_matches(patterns + more, path),
        any_matches(more, path) ==> any_matches(patterns + more, path),
{
    let both = patterns + more;
    if any_matches(patterns, path) {
        let i = choose|i: int|
            0 <= i < patterns.len() && glob_matches(#[trigger] patterns[i], path);
        assert(both[i] == patterns[i]);
    }
    if any_matches(more, path) {
        let i = choose|i: int| 0 <= i < more.len() && glob_matches(#[trigger] more[i], path);
        assert(both[patterns.len() + i] == more[i]);
    }
}

/// Merged patterns are in ascending order without repetitions, and they are exactly those of the
/// two files and the settings.
pub proof fn law_merged_patterns(
    home: Seq<char>,
    data: Seq<char>,
    extra: Seq<Seq<char>>,
    p: Seq<char>,
)
    ensures
        text::ascending(merged(Some(home), Some(data), extra)),
        merged(Some(home), Some(data), extra).contains(p) <==> ignore_patterns(home).contains(p)
            || ignore_patterns(data).contains(p) || extra.contains(p),
{
    let a = ignore_patterns(home);
    let b = ignore_patterns(data);
    let all = a + b + extra;
    assert(text::ascending(text::sorted_set(all, all.len()))) by {
        text::lemma_sorted_set(all, all.len());
    }
    text::law_sorted_set(all, p);
    lemma_either(a, b, p);
    lemma_either(a + b, extra, p);
}

proof fn lemma_line_patterns(lines: Seq<Seq<char>>, k: nat, i: int)
    requires
        k <= lines.len(),
        0 <= i < line_patterns(lines, k).len(),
    ensures
        ({
            let p = line_patterns(lines, k)[i];
            p.len() > 0 && p[0] != '#' && !text::is_white(p[0]) && !text::is_white(p.last())
        }),
    decreases k,
{
    if k > 0 {
        let before = line_patterns(lines, (k - 1) as nat);
        if i < before.len() {
            lemma_line_patterns(lines, (k - 1) as nat, i);
        } else {
            let l = lines[k - 1];
            text::lemma_trim_start(l);
            text::lemma_trim_end(text::trim_start(l));
        }
    }
}

/// No pattern of an ignore file is blank, a comment, or has white space around it.
pub proof fn law_ignore_patterns_are_clean(content: Seq<char>, i: int)
    requires
        0 <= i < ignore_patterns(content).len(),
    ensures
        ({
            let p = ignore_patterns(content)[i];
            p.len() > 0 && p[0] != '#' && !text::is_white(p[0]) && !text::is_white(p.last())
        }),
{
    let lines = text::raw_lines(content);
    lemma_line_patterns(lines, lines.len(), i);
}

/// White space around a pattern means nothing, and a pattern that names a directory, with a `/`
/// at its end, stands for all that is in it; other patterns are taken as they are.
pub proof fn law_written_patterns(raw: Seq<char>, t: Seq<char>)
    ensures
        normal_pattern(raw) == normal_pattern(text::trim(raw)),
        t == text::trim(raw) && t.len() > 0 && t.last() == '/' ==> normal_pattern(raw) == t.push(
            '*',
        ).push('*'),
        t == text::trim(raw) && (t.len() == 0 || t.last() != '/') ==> normal_pattern(raw) == t,
{
    text::law_trimmed_text(raw);
    let u = text::trim(raw);
    if u.len() > 0 && u.last() == '/' {
        assert(u + seq!['*', '*'] =~= u.push('*').push('*'));
    }
}

/// The patterns that are in force are the ones that are not blank and that are patterns, each as
/// it was written.
pub proof fn law_patterns_in_force(raw: Seq<Seq<char>>, k: nat, p: Seq<char>)
    requires
        k <= raw.len(),
    ensures
        accepted(raw, k).contains(p) <==> exists|i: int|
            0 <= i < k && text::trim(#[trigger] raw[i]).len() > 0 && normal_pattern(raw[i]) == p
                && glob_error(p) is None,
        accepted(raw, k).len() <= k,
    decreases k,
{
    if k > 0 {
        let n = (k - 1) as nat;
        let before = accepted(raw, n);
        let all = accepted(raw, k);
        let x = normal_pattern(raw[k - 1]);
        law_patterns_in_force(raw, n, p);
        if before.contains(p) {
            let i = choose|i: int| 0 <= i < before.len() && before[i] == p;
            assert(all[i] == p);
        }
        if text::trim(raw[k - 1]).len() > 0 && glob_error(x) is None {
            assert(all == before.push(x));
            assert(all[before.len() as int] == x);
            if all.contains(p) {
                let i = choose|i: int| 0 <= i < all.len() && all[i] == p;
                if i < before.len() {
                    assert(before[i] == p);
                }
            }
        }
    }
}

proof fn lemma_patterns_of_lines(lines: Seq<Seq<char>>, k: nat, p: Seq<char>)
    requires
        k <= lines.len(),
    ensures
        line_patterns(lines, k).contains(p) <==> p.len() > 0 && p[0] != '#' && exists|i: int|
            0 <= i < k && text::trim(#[trigger] lines[i]) == p,
    decreases k,
{
    if k > 0 {
        let n = (k - 1) as nat;
        let before = line_patterns(lines, n);
        let all = line_patterns(lines, k);
        let l = lines[k - 1];
        let t = text::trim(l);
        lemma_patterns_of_lines(lines, n, p);
        text::lemma_trim_start(l);
        text::lemma_trim_end(text::trim_start(l));
        if t.len() > 0 {
            assert(t[0] == text::trim_start(l)[0]);
        }
        if before.contains(p) {
            let i = choose|i: int| 0 <= i < before.len() && before[i] == p;
            assert(all[i] == p);
        }
        if holds_pattern(l) {
            assert(all == before.push(t));
            assert(all[before.len() as int] == t);
            if all.contains(p) {
                let i = choose|i: int| 0 <= i < all.len() && all[i] == p;
                if i < before.len() {
                    assert(before[i] == p);
                }
            }
        }
    }
}

/// The patterns of an ignore file are its lines without the white space around them, except for
/// blank lines and those that start with `#`.
pub proof fn law_lines_of_ignore_file(content: Seq<char>, p: Seq<char>)
    ensures
        ignore_patterns(content).contains(p) <==> p.len() > 0 && p[0] != '#' && exists|i: int|
            0 <= i < text::raw_lines(content).len() && text::trim(
                #[trigger] text::raw_lines(content)[i],
            ) == p,
{
    lemma_patterns_of_lines(text::raw_lines(content), text::raw_lines(content).len(), p);
}

/// Ignore files that are not there add nothing.
pub proof fn law_missing_ignore_files(home: Seq<char>, data: Seq<char>, extra: Seq<Seq<char>>, p: Seq<char>)
    ensures
        merged(None, None, extra).contains(p) <==> extra.contains(p),
        merged(Some(home), None, extra).contains(p) <==> ignore_patterns(home).contains(p)
            || extra.contains(p),
        merged(None, Some(data), extra).contains(p) <==> ignore_patterns(data).contains(p)
            || extra.contains(p),
{
    let none = Seq::<Seq<char>>::empty();
    let h = ignore_patterns(home);
    let d = ignore_patterns(data);
    text::law_sorted_set(none + none + extra, p);
    text::law_sorted_set(h + none + extra, p);
    text::law_sorted_set(none + d + extra, p);
    assert(none + none + extra =~= extra);
    assert(h + none + extra =~= h + extra);
    assert(none + d + extra =~= d + extra);
    lemma_either(h, extra, p);
    lemma_either(d, extra, p);
}

proof fn lemma_either(a: Seq<Seq<char>>, b: Seq<Seq<char>>, p: Seq<char>)
    ensures
        (a + b).contains(p) <==> a.contains(p) || b.contains(p),
{
    let all = a + b;
    if a.contains(p) {
        let k = choose|k: int| 0 <= k < a.len() && a[k] == p;
        assert(all[k] == p);
    }
    if b.contains(p) {
        let k = choose|k: int| 0 <= k < b.len() && b[k] == p;
        assert(all[a.len() + k] == p);
    }
    if all.contains(p) {
        let k = choose|k: int| 0 <= k < all.len() && all[k] == p;
        if k < a.len() {
            assert(a[k] == p);
        } else {
            assert(b[k - a.len()] == p);
        }
    }
}

} // verus!
