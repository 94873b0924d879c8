//! Vault-relative path normalization and Unicode-aware resolution of path components.
//!
//! Paths are strings with `/` between their components. What the disk holds is handed in as
//! readings of the directories on the way; the functions here decide what to read next.
use crate::error::{ErrorView, VaultError};
use crate::text;
use unicode_normalization::UnicodeNormalization;
use vstd::prelude::*;

verus! {

// ---------------------------------------------------------------------------
// Components
// ---------------------------------------------------------------------------

/// Whether a part between two `/` counts: it is not empty, and `.` counts only at the start.
pub open spec fn counts(part: Seq<char>, first: bool) -> bool {
    part.len() > 0 && (first || part != seq!['.'])
}

/// The parts that count among the first `k`.
pub open spec fn counting(parts: Seq<Seq<char>>, k: nat) -> Seq<Seq<char>>
    decreases k,
{
    if k == 0 {
        Seq::empty()
    } else {
        let before = counting(parts, (k - 1) as nat);
        if counts(parts[k - 1], k == 1) {
            before.push(parts[k - 1])
        } else {
            before
        }
    }
}

/// Whether a path starts at the root.
pub open spec fn is_absolute(path: Seq<char>) -> bool {
    path.len() > 0 && path[0] == '/'
}

/// The components of a path below its root.
pub open spec fn components(path: Seq<char>) -> Seq<Seq<char>> {
    let parts = text::split(path, seq!['/']);
    counting(parts, parts.len())
}

/// The last component of a path that ends in a name; else nothing.
pub open spec fn file_name(path: Seq<char>) -> Seq<char> {
    let cs = components(path);
    if cs.len() > 0 && cs.last() != seq!['.', '.'] && cs.last() != seq!['.'] {
        cs.last()
    } else {
        Seq::empty()
    }
}

/// A file name without its extension. A dot at the start of the name opens no extension.
pub open spec fn stem_of(name: Seq<char>) -> Seq<char> {
    match text::rfind(name, seq!['.']) {
        Some(i) => if i > 0 {
            name.take(i as int)
        } else {
            name
        },
        None => name,
    }
}

/// The extension of a file name.
pub open spec fn extension_of(name: Seq<char>) -> Option<Seq<char>> {
    match text::rfind(name, seq!['.']) {
        Some(i) => if i > 0 {
            Some(name.skip(i as int + 1))
        } else {
            None
        },
        None => None,
    }
}

/// The file name of a path without its extension.
pub open spec fn file_stem(path: Seq<char>) -> Seq<char> {
    stem_of(file_name(path))
}

/// Whether a path names a Markdown file.
pub open spec fn is_markdown(path: Seq<char>) -> bool {
    match extension_of(file_name(path)) {
        Some(e) => text::eq_ignore_ascii_case(e, seq!['m', 'd']),
        None => false,
    }
}

/// Computes [`components`].
pub fn split_components(path: &[char]) -> (r: Vec<Vec<char>>)
    ensures
        text::texts(r@) == components(path@),
{
    let sep: [char; 1] = ['/'];
    assert(sep@ == seq!['/']);
    let parts = text::split_on(path, &sep);
    let ghost ps = text::texts(parts@);
    let dot: [char; 1] = ['.'];
    assert(dot@ == seq!['.']);
    let mut r: Vec<Vec<char>> = Vec::new();
    let mut k: usize = 0;
    while k < parts.len()
        invariant
            k <= parts.len(),
            ps == text::texts(parts@),
            dot@ == seq!['.'],
            text::texts(r@) == counting(ps, k as nat),
        decreases parts.len() - k,
    {
        let part = &parts[k];
        assert(ps[k as int] == part@);
        let ghost before = r@;
        if part.len() > 0 && (k == 0 || !text::same_chars(part, &dot)) {
            let copy = text::copy_chars(part);
            r.push(copy);
            assert(text::texts(r@) == text::texts(before).push(copy@));
        }
        k = k + 1;
    }
    r
}

/// Computes [`file_name`].
pub fn name_of(path: &str) -> (r: Vec<char>)
    ensures
        r@ == file_name(path@),
{
    let chars = text::to_chars(path);
    let cs = split_components(&chars);
    let dots: [char; 2] = ['.', '.'];
    let dot: [char; 1] = ['.'];
    assert(dots@ == seq!['.', '.']);
    assert(dot@ == seq!['.']);
    if cs.len() == 0 {
        return Vec::new();
    }
    let last = &cs[cs.len() - 1];
    assert(components(path@).last() == last@);
    if text::same_chars(last, &dots) || text::same_chars(last, &dot) {
        Vec::new()
    } else {
        text::copy_chars(last)
    }
}

/// Computes [`file_stem`].
pub fn stem(path: &str) -> (r: String)
    ensures
        r@ == file_stem(path@),
{
    let name = name_of(path);
    let dot: [char; 1] = ['.'];
    assert(dot@ == seq!['.']);
    match text::rfind_in(&name, &dot) {
        Some(i) => if i > 0 {
            text::from_chars(vstd::slice::slice_subrange(&name, 0, i))
        } else {
            text::from_chars(&name)
        },
        None => text::from_chars(&name),
    }
}

/// Computes [`extension_of`].
pub fn extension(name: &[char]) -> (r: Option<Vec<char>>)
    ensures
        match r {
            Some(ext) => extension_of(name@) == Some(ext@),
            None => extension_of(name@) is None,
        },
{
    let dot: [char; 1] = ['.'];
    assert(dot@ == seq!['.']);
    let n = name.len();
    match text::rfind_in(name, &dot) {
        Some(i) => if i > 0 {
            let ext = vstd::slice::slice_subrange(name, i + 1, n);
            assert(ext@ == name@.skip(i + 1));
            Some(text::copy_chars(ext))
        } else {
            None
        },
        None => None,
    }
}

/// Computes [`is_markdown`].
pub fn names_markdown(path: &str) -> (r: bool)
    ensures
        r == is_markdown(path@),
{
    let md: [char; 2] = ['m', 'd'];
    assert(md@ == seq!['m', 'd']);
    match extension(&name_of(path)) {
        Some(ext) => text::same_ignore_ascii_case(&ext, &md),
        None => false,
    }
}

// ---------------------------------------------------------------------------
// Normalization
// ---------------------------------------------------------------------------

/// The components that are left after the first `k` were walked from the root of the vault;
/// nothing if they lead out of it.
pub open spec fn walked(cs: Seq<Seq<char>>, k: nat) -> Option<Seq<Seq<char>>>
    decreases k,
{
    if k == 0 {
        Some(Seq::empty())
    } else {
        match walked(cs, (k - 1) as nat) {
            None => None,
            Some(at) => if cs[k - 1] == seq!['.', '.'] {
                if at.len() > 0 {
                    Some(at.drop_last())
                } else {
                    None
                }
            } else if cs[k - 1] == seq!['.'] {
                Some(at)
            } else {
                Some(at.push(cs[k - 1]))
            },
        }
    }
}

/// A path with `/` in place of every `\`.
pub open spec fn forward_slashes(path: Seq<char>) -> Seq<char> {
    path.map_values(
        |c: char|
            if c == '\\' {
                '/'
            } else {
                c
            },
    )
}

/// What a vault-relative path is normalized to: an absolute path and one that leads out of the
/// vault are rejected. A `\` separates components as a `/` does, but makes no path absolute.
pub open spec fn normalized(path: Seq<char>) -> Result<Seq<char>, ErrorView> {
    let cs = components(forward_slashes(path));
    if is_absolute(path) {
        Err(ErrorView::InvalidPath("absolute paths not allowed: "@ + path))
    } else {
        match walked(cs, cs.len()) {
            Some(at) => Ok(text::join(at, seq!['/'])),
            None => Err(ErrorView::OutsideVault(path)),
        }
    }
}

/// Computes [`forward_slashes`].
pub fn with_forward_slashes(path: &[char]) -> (r: Vec<char>)
    ensures
        r@ == forward_slashes(path@),
{
    let mut r: Vec<char> = Vec::new();
    let mut i: usize = 0;
    while i < path.len()
        invariant
            i <= path.len(),
            r@ == forward_slashes(path@.take(i as int)),
        decreases path.len() - i,
    {
        let c = if path[i] == '\\' {
            '/'
        } else {
            path[i]
        };
        r.push(c);
        i = i + 1;
        assert(r@ =~= forward_slashes(path@.take(i as int)));
    }
    assert(path@.take(i as int) == path@);
    r
}

/// Computes [`text::join`] on lists of characters with `/` as separator.
pub fn join_components(parts: &Vec<Vec<char>>) -> (r: Vec<char>)
    ensures
        r@ == text::join(text::texts(parts@), seq!['/']),
{
    let mut r: Vec<char> = Vec::new();
    let mut k: usize = 0;
    while k < parts.len()
        invariant
            k <= parts.len(),
            r@ == text::join(text::texts(parts@).take(k as int), seq!['/']),
        decreases parts.len() - k,
    {
        let ghost before = r@;
        if k > 0 {
            r.push('/');
        }
        text::append_chars(&mut r, &parts[k]);
        k = k + 1;
        proof {
            let t = text::texts(parts@).take(k as int);
            assert(t.drop_last() == text::texts(parts@).take(k as int - 1));
            assert(t.last() == parts@[k as int - 1]@);
            if k == 1 {
                assert(Seq::<char>::empty() + t[0] == t[0]);
            } else {
                assert(before.push('/') == before + seq!['/']);
            }
        }
    }
    assert(text::texts(parts@).take(k as int) == text::texts(parts@));
    r
}

/// Walks components from the root of the vault; gives what is left of them.
fn walk_components(cs: &Vec<Vec<char>>) -> (r: Option<Vec<Vec<char>>>)
    ensures
        match r {
            Some(at) => walked(text::texts(cs@), cs.len() as nat) == Some(text::texts(at@)),
            None => walked(text::texts(cs@), cs.len() as nat) is None,
        },
{
    let dots: [char; 2] = ['.', '.'];
    let dot: [char; 1] = ['.'];
    let ghost ps = text::texts(cs@);
    let mut at: Vec<Vec<char>> = Vec::new();
    assert(text::texts(at@) =~= Seq::<Seq<char>>::empty());
    let mut k: usize = 0;
    while k < cs.len()
        invariant
            k <= cs.len(),
            ps == text::texts(cs@),
            dots@ == seq!['.', '.'],
            dot@ == seq!['.'],
            walked(ps, k as nat) == Some(text::texts(at@)),
        decreases cs.len() - k,
    {
        let c = &cs[k];
        assert(ps[k as int] == c@);
        let ghost before = at@;
        if text::same_chars(c, &dots) {
            if at.len() == 0 {
                proof {
                    lemma_walked_none(ps, (k + 1) as nat, cs.len() as nat);
                }
                return None;
            }
            let gone = at.pop();
            assert(text::texts(at@) =~= text::texts(before).drop_last());
        } else if !text::same_chars(c, &dot) {
            let copy = text::copy_chars(c);
            at.push(copy);
            assert(text::texts(at@) =~= text::texts(before).push(copy@));
        }
        k = k + 1;
    }
    Some(at)
}

proof fn lemma_walked_none(cs: Seq<Seq<char>>, k: nat, n: nat)
    requires
        walked(cs, k) is None,
        k <= n,
    ensures
        walked(cs, n) is None,
    decreases n,
{
    if k < n {
        lemma_walked_none(cs, k, (n - 1) as nat);
    }
}

/// Normalizes a vault-relative path, rejecting absolute paths and root escapes.
pub fn normalize_relative(path: &str) -> (r: Result<String, VaultError>)
    ensures
        crate::error::text_result(r) == normalized(path@),
{
    let chars = text::to_chars(path);
    if chars.len() > 0 && chars[0] == '/' {
        let mut message = "absolute paths not allowed: ".to_owned();
        message.push_str(path);
        return Err(VaultError::InvalidPath(message));
    }
    let cs = split_components(&with_forward_slashes(&chars));
    match walk_components(&cs) {
        Some(at) => Ok(text::from_chars(&join_components(&at))),
        None => Err(VaultError::OutsideVault(path.to_owned())),
    }
}

/// A path without needless separators and dots: the form that all spellings of a path share.
pub open spec fn tidy(path: Seq<char>) -> Seq<char> {
    (if is_absolute(path) {
        seq!['/']
    } else {
        Seq::empty()
    }) + text::join(components(path), seq!['/'])
}

/// Computes [`tidy`].
pub fn tidied(path: &str) -> (r: String)
    ensures
        r@ == tidy(path@),
{
    let chars = text::to_chars(path);
    let mut out: Vec<char> = Vec::new();
    if chars.len() > 0 && chars[0] == '/' {
        out.push('/');
    }
    let ghost start = out@;
    assert(start =~= if is_absolute(path@) {
        seq!['/']
    } else {
        Seq::<char>::empty()
    });
    text::append_chars(&mut out, &join_components(&split_components(&chars)));
    text::from_chars(&out)
}

/// Whether a path is in its tidy form.
pub open spec fn is_tidy(path: Seq<char>) -> bool {
    tidy(path) == path
}

/// Whether two texts are the same path.
pub open spec fn same_place(a: Seq<char>, b: Seq<char>) -> bool {
    is_absolute(a) == is_absolute(b) && components(a) == components(b)
}

/// Whether two texts are the same path.
pub fn is_same_path(a: &str, b: &str) -> (r: bool)
    ensures
        r == same_place(a@, b@),
{
    let ac = text::to_chars(a);
    let bc = text::to_chars(b);
    let a_abs = ac.len() > 0 && ac[0] == '/';
    let b_abs = bc.len() > 0 && bc[0] == '/';
    let a_parts = split_components(&ac);
    let b_parts = split_components(&bc);
    let ghost xs = text::texts(a_parts@);
    let ghost ys = text::texts(b_parts@);
    assert(xs.len() == a_parts@.len() && ys.len() == b_parts@.len());
    if a_abs != b_abs || a_parts.len() != b_parts.len() {
        return false;
    }
    let mut k: usize = 0;
    while k < a_parts.len()
        invariant
            k <= a_parts.len(),
            a_parts.len() == b_parts.len(),
            xs == text::texts(a_parts@),
            ys == text::texts(b_parts@),
            xs == components(a@),
            ys == components(b@),
            forall|i: int| 0 <= i < k ==> xs[i] == ys[i],
        decreases a_parts.len() - k,
    {
        assert(xs[k as int] == a_parts@[k as int]@ && ys[k as int] == b_parts@[k as int]@);
        if !text::same_chars(&a_parts[k], &b_parts[k]) {
            return false;
        }
        k = k + 1;
    }
    assert(xs =~= ys);
    true
}

/// The components of a path below a root, if it lies there.
pub open spec fn components_below(root: Seq<char>, absolute: Seq<char>) -> Option<Seq<Seq<char>>> {
    let rc = components(root);
    let ac = components(absolute);
    if is_absolute(root) == is_absolute(absolute) && rc.is_prefix_of(ac) {
        Some(ac.skip(rc.len() as int))
    } else {
        None
    }
}

/// The path below a root, in the form of [`normalized`].
pub open spec fn below_root(root: Seq<char>, absolute: Seq<char>) -> Result<Seq<char>, ErrorView> {
    match components_below(root, absolute) {
        Some(below) => normalized(text::join(below, seq!['/'])),
        None => Err(ErrorView::OutsideVault(absolute)),
    }
}

/// Splits off the components of a path below a root.
pub fn split_below(vault_root: &str, absolute: &str) -> (r: Option<Vec<Vec<char>>>)
    ensures
        match r {
            Some(below) => components_below(vault_root@, absolute@) == Some(text::texts(below@)),
            None => components_below(vault_root@, absolute@) is None,
        },
{
    let root_chars = text::to_chars(vault_root);
    let abs_chars = text::to_chars(absolute);
    let root_abs = root_chars.len() > 0 && root_chars[0] == '/';
    let path_abs = abs_chars.len() > 0 && abs_chars[0] == '/';
    let rc = split_components(&root_chars);
    let ac = split_components(&abs_chars);
    let ghost rs = text::texts(rc@);
    let ghost acs = text::texts(ac@);
    if root_abs != path_abs || rc.len() > ac.len() {
        return None;
    }
    let mut k: usize = 0;
    while k < rc.len()
        invariant
            k <= rc.len() <= ac.len(),
            rs == text::texts(rc@),
            acs == text::texts(ac@),
            rs == components(vault_root@),
            acs == components(absolute@),
            forall|j: int| 0 <= j < k ==> rs[j] == acs[j],
        decreases rc.len() - k,
    {
        assert(rs[k as int] == rc@[k as int]@ && acs[k as int] == ac@[k as int]@);
        if !text::same_chars(&rc[k], &ac[k]) {
            assert(!rs.is_prefix_of(acs)) by {
                if rs.is_prefix_of(acs) {
                    assert(acs.subrange(0, rs.len() as int)[k as int] == acs[k as int]);
                }
            }
            return None;
        }
        k = k + 1;
    }
    assert(rs =~= acs.subrange(0, rs.len() as int));
    let mut rest: Vec<Vec<char>> = Vec::new();
    while k < ac.len()
        invariant
            rc.len() <= k <= ac.len(),
            rs.len() == rc.len(),
            acs == text::texts(ac@),
            text::texts(rest@) =~= acs.subrange(rs.len() as int, k as int),
        decreases ac.len() - k,
    {
        let ghost before = rest@;
        let copy = text::copy_chars(&ac[k]);
        rest.push(copy);
        assert(text::texts(rest@) =~= text::texts(before).push(copy@));
        assert(acs[k as int] == copy@);
        k = k + 1;
    }
    assert(text::texts(rest@) =~= acs.skip(rs.len() as int));
    Some(rest)
}

/// Whether a path lies below a root and has no vault-relative form all the same: it leads out of
/// the vault where a `\` in it separates components.
pub open spec fn lacks_vault_path(root: Seq<char>, absolute: Seq<char>) -> bool {
    &&& components_below(root, absolute) matches Some(below) && walked(below, below.len()) is Some
    &&& below_root(root, absolute) is Err
}

/// Converts an absolute path under the vault root into the internal relative form.
pub fn relative_from_absolute(vault_root: &str, absolute: &str) -> (r: Result<String, VaultError>)
    ensures
        crate::error::text_result(r) == below_root(vault_root@, absolute@),
{
    match split_below(vault_root, absolute) {
        Some(below) => {
            let joined = join_components(&below);
            normalize_relative(&text::from_chars(&joined))
        },
        None => Err(VaultError::OutsideVault(absolute.to_owned())),
    }
}

/// Whether a path lies below a root, and nothing in it leads above the root again.
pub fn stays_below(root: &str, absolute: &str) -> (r: bool)
    ensures
        r == (components_below(root@, absolute@) matches Some(below) && walked(below, below.len())
            is Some),
{
    match split_below(root, absolute) {
        Some(below) => walk_components(&below).is_some(),
        None => false,
    }
}

// ---------------------------------------------------------------------------
// Spelling of components on disk
// ---------------------------------------------------------------------------

/// The canonical composition (Unicode NFC) of a text.
pub uninterp spec fn nfc(s: Seq<char>) -> Seq<char>;

/// `UnicodeNormalization::nfc` of `unicode_normalization`, collected into a string. What comes
/// out depends on the text alone. A text that is all ASCII comes out as it is: ASCII characters
/// neither come apart nor go together.
#[verifier::external_body]
fn compose(s: &str) -> (r: String)
    ensures
        r@ == nfc(s@),
        text::is_ascii(s@) ==> r@ == s@,
{
    s.nfc().collect()
}

/// Unicode canonical key used for normalization-form-insensitive comparisons.
pub fn canonical_unicode_key(s: &str) -> (r: String)
    ensures
        r@ == nfc(s@),
        text::is_ascii(s@) ==> r@ == s@,
{
    compose(s)
}

/// The names among the first `k` that are the requested one in some normalization form.
pub open spec fn same_key(names: Seq<Seq<char>>, k: nat, requested: Seq<char>) -> Seq<Seq<char>>
    decreases k,
{
    if k == 0 {
        Seq::empty()
    } else {
        let before = same_key(names, (k - 1) as nat, requested);
        if nfc(names[k - 1]) == nfc(requested) {
            before.push(names[k - 1])
        } else {
            before
        }
    }
}

/// The message for a component that several names of a directory match.
pub open spec fn ambiguous(requested: Seq<char>, original: Seq<char>) -> ErrorView {
    ErrorView::InvalidPath(
        "ambiguous Unicode-normalized path component '"@ + requested + "' in "@ + original,
    )
}

/// The name under which a directory holds a requested component: its exact spelling, else the
/// only spelling with the same canonical key.
pub open spec fn spelled(
    names: Seq<Seq<char>>,
    requested: Seq<char>,
    original: Seq<char>,
) -> Result<Option<Seq<char>>, ErrorView> {
    let found = same_key(names, names.len(), requested);
    if names.contains(requested) {
        Ok(Some(requested))
    } else if found.len() == 0 {
        Ok(None)
    } else if found.len() == 1 {
        Ok(Some(found[0]))
    } else {
        Err(ambiguous(requested, original))
    }
}

/// The mathematical form of a name that was looked up.
pub open spec fn name_result(r: Result<Option<String>, VaultError>) -> Result<
    Option<Seq<char>>,
    ErrorView,
> {
    match r {
        Ok(Some(s)) => Ok(Some(s@)),
        Ok(None) => Ok(None),
        Err(e) => Err(e@),
    }
}

/// Finds a requested component among the names that a directory holds.
pub fn find_component(names: &Vec<String>, requested: &str, original: &str) -> (r: Result<
    Option<String>,
    VaultError,
>)
    ensures
        name_result(r) == spelled(text::strings(names@), requested@, original@),
{
    let key = canonical_unicode_key(requested);
    let ghost ns = text::strings(names@);
    let mut found: Vec<String> = Vec::new();
    assert(text::strings(found@) =~= Seq::<Seq<char>>::empty());
    let mut k: usize = 0;
    while k < names.len()
        invariant
            k <= names.len(),
            ns == text::strings(names@),
            key@ == nfc(requested@),
            forall|j: int| 0 <= j < k ==> ns[j] != requested@,
            text::strings(found@) == same_key(ns, k as nat, requested@),
        decreases names.len() - k,
    {
        let name = &names[k];
        assert(ns[k as int] == name@);
        if text::same_str(name, requested) {
            assert(ns.contains(requested@));
            return Ok(Some(name.clone()));
        }
        let ghost before = found@;
        let name_key = canonical_unicode_key(name);
        if text::same_str(&name_key, &key) {
            found.push(name.clone());
            assert(text::strings(found@) =~= text::strings(before).push(name@));
        }
        k = k + 1;
    }
    assert(!ns.contains(requested@));
    assert(text::strings(found@).len() == found@.len());
    if found.len() == 0 {
        Ok(None)
    } else if found.len() == 1 {
        assert(text::strings(found@)[0] == found@[0]@);
        Ok(Some(found[0].clone()))
    } else {
        let mut message = "ambiguous Unicode-normalized path component '".to_owned();
        message.push_str(requested);
        message.push_str("' in ");
        message.push_str(original);
        Err(VaultError::InvalidPath(message))
    }
}

// ---------------------------------------------------------------------------
// Resolution against the disk
// ---------------------------------------------------------------------------

/// What reading a directory gave.
#[derive(Debug)]
pub enum Listing {
    /// The names in the directory.
    Names(Vec<String>),
    /// There is no such directory.
    Missing,
    /// The directory could not be read.
    Failed(String),
}

/// What the disk holds at a place.
#[derive(Debug)]
pub struct Reading {
    pub listing: Listing,
    /// Whether the place, links followed, lies in the vault or does not exist.
    pub inside: bool,
}

/// The mathematical form of a [`Listing`].
pub enum ListingView {
    Names(Seq<Seq<char>>),
    Missing,
    Failed(Seq<char>),
}

impl View for Listing {
    type V = ListingView;

    open spec fn view(&self) -> ListingView {
        match *self {
            Listing::Names(names) => ListingView::Names(text::strings(names@)),
            Listing::Missing => ListingView::Missing,
            Listing::Failed(m) => ListingView::Failed(m@),
        }
    }
}

/// A path of the vault as it is spelled on disk.
#[derive(Debug)]
pub struct ResolvedPath {
    pub relative: String,
    pub absolute: String,
}

/// What resolving a path comes to with the readings at hand.
#[derive(Debug)]
pub enum Step {
    /// The path is resolved.
    Done(ResolvedPath),
    /// The place to read next.
    Look(String),
    /// The new path whose nearest existing parent is to be checked next.
    LookParent(String),
}

/// The mathematical form of a [`Step`].
pub enum StepView {
    Done { relative: Seq<char>, absolute: Seq<char> },
    Look(Seq<char>),
    LookParent(Seq<char>),
}

impl View for Step {
    type V = StepView;

    open spec fn view(&self) -> StepView {
        match *self {
            Step::Done(p) => StepView::Done { relative: p.relative@, absolute: p.absolute@ },
            Step::Look(p) => StepView::Look(p@),
            Step::LookParent(p) => StepView::LookParent(p@),
        }
    }
}

/// The mathematical form of a step or its error.
pub open spec fn step_result(r: Result<Step, VaultError>) -> Result<StepView, ErrorView> {
    match r {
        Ok(s) => Ok(s@),
        Err(e) => Err(e@),
    }
}

/// A path with one more component.
pub open spec fn pushed(base: Seq<char>, name: Seq<char>) -> Seq<char> {
    if base.len() == 0 || base.last() == '/' {
        base + name
    } else {
        base.push('/') + name
    }
}

/// The place below a root that some components lead to.
pub open spec fn place(root: Seq<char>, names: Seq<Seq<char>>) -> Seq<char>
    decreases names.len(),
{
    if names.len() == 0 {
        root
    } else {
        pushed(place(root, names.drop_last()), names.last())
    }
}

/// The components among the first `k` that are names.
pub open spec fn named(cs: Seq<Seq<char>>, k: nat) -> Seq<Seq<char>>
    decreases k,
{
    if k == 0 {
        Seq::empty()
    } else {
        let before = named(cs, (k - 1) as nat);
        if cs[k - 1] != seq!['.'] && cs[k - 1] != seq!['.', '.'] {
            before.push(cs[k - 1])
        } else {
            before
        }
    }
}

/// The names that a normalized path is made of.
pub open spec fn path_names(path: Seq<char>) -> Seq<Seq<char>> {
    named(components(path), components(path).len())
}

/// How far names can be followed on disk.
pub enum Walk {
    /// All names were found, spelled like this.
    Found(Seq<Seq<char>>),
    /// The next name is missing below the ones that were found.
    Missing(Seq<Seq<char>>),
    /// The place below the names found so far is not read yet.
    Unread(Seq<Seq<char>>),
    Failed(ErrorView),
}

/// Follows names on disk: `found` holds the spelling of the first ones, and `seen[i]` is what the
/// place below the first `i` names holds.
pub open spec fn walk(
    names: Seq<Seq<char>>,
    found: Seq<Seq<char>>,
    seen: Seq<Reading>,
    original: Seq<char>,
) -> Walk
    decreases names.len() - found.len(),
{
    let i = found.len() as int;
    if i >= seen.len() {
        Walk::Unread(found)
    } else if i > 0 && !seen[i].inside {
        Walk::Failed(ErrorView::OutsideVault(original))
    } else if i >= names.len() {
        Walk::Found(found)
    } else {
        match seen[i].listing@ {
            ListingView::Missing => Walk::Missing(found),
            ListingView::Failed(m) => Walk::Failed(ErrorView::Io(m)),
            ListingView::Names(here) => match spelled(here, names[i], original) {
                Err(e) => Walk::Failed(e),
                Ok(None) => Walk::Missing(found),
                Ok(Some(name)) => walk(names, found.push(name), seen, original),
            },
        }
    }
}

/// A path in its resolved form.
pub open spec fn resolved(root: Seq<char>, names: Seq<Seq<char>>) -> StepView {
    StepView::Done {
        relative: forward_slashes(text::join(names, seq!['/'])),
        absolute: place(root, names),
    }
}

/// How far a path of the vault can be followed on disk.
pub open spec fn walk_path(names: Seq<Seq<char>>, seen: Seq<Reading>, original: Seq<char>) -> Walk {
    if names.len() == 0 {
        Walk::Found(Seq::empty())
    } else {
        walk(names, Seq::empty(), seen, original)
    }
}

/// What resolving an existing path comes to.
pub open spec fn existing(root: Seq<char>, relative: Seq<char>, seen: Seq<Reading>) -> Result<
    StepView,
    ErrorView,
> {
    match normalized(relative) {
        Err(e) => Err(e),
        Ok(n) => match walk_path(path_names(n), seen, relative) {
            Walk::Found(names) => Ok(resolved(root, names)),
            Walk::Missing(_) => Err(ErrorView::NoteNotFound(relative)),
            Walk::Unread(names) => Ok(StepView::Look(place(root, names))),
            Walk::Failed(e) => Err(e),
        },
    }
}

/// What resolving a path that is to be written comes to: names that exist keep the spelling on
/// disk, and the rest is taken as it was asked for, below a parent that lies in the vault.
pub open spec fn for_write(
    root: Seq<char>,
    relative: Seq<char>,
    seen: Seq<Reading>,
    parent_inside: Option<bool>,
) -> Result<StepView, ErrorView> {
    match normalized(relative) {
        Err(e) => Err(e),
        Ok(n) => match walk_path(path_names(n), seen, relative) {
            Walk::Found(names) => Ok(resolved(root, names)),
            Walk::Missing(found) => {
                let names = found + path_names(n).skip(found.len() as int);
                match parent_inside {
                    None => Ok(StepView::LookParent(place(root, names))),
                    Some(true) => Ok(resolved(root, names)),
                    Some(false) => Err(ErrorView::OutsideVault(relative)),
                }
            },
            Walk::Unread(names) => Ok(StepView::Look(place(root, names))),
            Walk::Failed(e) => Err(e),
        },
    }
}

/// The directory that a path without needless separators lies in.
pub open spec fn parent_of(path: Seq<char>) -> Option<Seq<char>> {
    if path.len() == 0 || path == seq!['/'] {
        None
    } else {
        match text::rfind(path, seq!['/']) {
            None => Some(Seq::empty()),
            Some(i) => if i == 0 {
                Some(seq!['/'])
            } else {
                Some(path.take(i as int))
            },
        }
    }
}

/// A path with another one put below it; an absolute path takes its place.
pub open spec fn joined_path(base: Seq<char>, name: Seq<char>) -> Seq<char> {
    if is_absolute(name) {
        name
    } else {
        pushed(base, name)
    }
}

/// Computes [`joined_path`].
pub fn join_path(base: &str, name: &str) -> (r: String)
    ensures
        r@ == joined_path(base@, name@),
{
    let chars = text::to_chars(name);
    if chars.len() > 0 && chars[0] == '/' {
        return name.to_owned();
    }
    let mut at = text::to_chars(base);
    push_component(&mut at, &chars);
    text::from_chars(&at)
}

/// Computes [`pushed`].
fn push_component(base: &mut Vec<char>, name: &[char])
    ensures
        final(base)@ == pushed(old(base)@, name@),
{
    if base.len() > 0 && base[base.len() - 1] != '/' {
        base.push('/');
    }
    text::append_chars(base, name);
}

/// Computes [`place`].
fn place_of(root: &str, names: &Vec<Vec<char>>) -> (r: String)
    ensures
        r@ == place(root@, text::texts(names@)),
{
    let mut at = text::to_chars(root);
    let ghost ns = text::texts(names@);
    let mut k: usize = 0;
    while k < names.len()
        invariant
            k <= names.len(),
            ns == text::texts(names@),
            at@ == place(root@, ns.take(k as int)),
        decreases names.len() - k,
    {
        push_component(&mut at, &names[k]);
        k = k + 1;
        proof {
            assert(ns.take(k as int).drop_last() == ns.take(k as int - 1));
            assert(ns.take(k as int).last() == names@[k as int - 1]@);
        }
    }
    assert(ns.take(k as int) == ns);
    text::from_chars(&at)
}

/// Computes [`path_names`].
fn names_of(path: &str) -> (r: Vec<Vec<char>>)
    ensures
        text::texts(r@) == path_names(path@),
{
    let chars = text::to_chars(path);
    let cs = split_components(&chars);
    let dots: [char; 2] = ['.', '.'];
    let dot: [char; 1] = ['.'];
    let ghost ps = text::texts(cs@);
    let mut r: Vec<Vec<char>> = Vec::new();
    let mut k: usize = 0;
    while k < cs.len()
        invariant
            k <= cs.len(),
            ps == text::texts(cs@),
            dots@ == seq!['.', '.'],
            dot@ == seq!['.'],
            text::texts(r@) == named(ps, k as nat),
        decreases cs.len() - k,
    {
        let c = &cs[k];
        assert(ps[k as int] == c@);
        let ghost before = r@;
        if !text::same_chars(c, &dot) && !text::same_chars(c, &dots) {
            let copy = text::copy_chars(c);
            r.push(copy);
            assert(text::texts(r@) == text::texts(before).push(copy@));
        }
        k = k + 1;
    }
    r
}

/// How far names were followed on disk.
enum Followed {
    Found(Vec<Vec<char>>),
    Missing(Vec<Vec<char>>),
    Unread(Vec<Vec<char>>),
    Failed(VaultError),
}

/// The mathematical form of [`Followed`].
spec fn followed(f: Followed) -> Walk {
    match f {
        Followed::Found(v) => Walk::Found(text::texts(v@)),
        Followed::Missing(v) => Walk::Missing(text::texts(v@)),
        Followed::Unread(v) => Walk::Unread(text::texts(v@)),
        Followed::Failed(e) => Walk::Failed(e@),
    }
}

/// Computes [`walk_path`].
fn follow(names: &Vec<Vec<char>>, seen: &Vec<Reading>, original: &str) -> (r: Followed)
    ensures
        followed(r) == walk_path(text::texts(names@), seen@, original@),
        r matches Followed::Missing(found) ==> found.len() <= names.len(),
{
    let mut found: Vec<Vec<char>> = Vec::new();
    let ghost ns = text::texts(names@);
    assert(text::texts(found@) =~= Seq::<Seq<char>>::empty());
    if names.len() == 0 {
        return Followed::Found(found);
    }
    loop
        invariant
            ns == text::texts(names@),
            found.len() <= names.len(),
            names.len() > 0,
            walk_path(ns, seen@, original@) == walk(
                ns,
                text::texts(found@),
                seen@,
                original@,
            ),
        decreases names.len() - found.len(),
    {
        let i = found.len();
        assert(text::texts(found@).len() == i);
        if i >= seen.len() {
            return Followed::Unread(found);
        }
        let here = &seen[i];
        if i > 0 && !here.inside {
            return Followed::Failed(VaultError::OutsideVault(original.to_owned()));
        }
        if i >= names.len() {
            return Followed::Found(found);
        }
        assert(ns[i as int] == names@[i as int]@);
        match &here.listing {
            Listing::Missing => {
                return Followed::Missing(found);
            },
            Listing::Failed(m) => {
                return Followed::Failed(VaultError::Io(m.clone()));
            },
            Listing::Names(entries) => {
                let requested = text::from_chars(&names[i]);
                match find_component(entries, &requested, original) {
                    Err(e) => {
                        return Followed::Failed(e);
                    },
                    Ok(None) => {
                        return Followed::Missing(found);
                    },
                    Ok(Some(name)) => {
                        let ghost before = found@;
                        let chars = text::to_chars(&name);
                        found.push(chars);
                        assert(text::texts(found@) =~= text::texts(before).push(name@));
                    },
                }
            },
        }
    }
}

/// The resolved form of a path.
fn resolved_path(root: &str, names: &Vec<Vec<char>>) -> (r: Step)
    ensures
        r@ == resolved(root@, text::texts(names@)),
{
    let joined = join_components(names);
    Step::Done(
        ResolvedPath {
            relative: text::from_chars(&with_forward_slashes(&joined)),
            absolute: place_of(root, names),
        },
    )
}

/// Resolves an existing vault path to its spelling on disk. `seen[i]` is what the place below
/// the first `i` components holds; where the next reading is missing, the step names the place.
pub fn resolve_existing(vault_root: &str, relative: &str, seen: &Vec<Reading>) -> (r: Result<
    Step,
    VaultError,
>)
    ensures
        step_result(r) == existing(vault_root@, relative@, seen@),
{
    let normal = match normalize_relative(relative) {
        Ok(n) => n,
        Err(e) => {
            return Err(e);
        },
    };
    let names = names_of(&normal);
    match follow(&names, seen, relative) {
        Followed::Found(found) => Ok(resolved_path(vault_root, &found)),
        Followed::Missing(_) => Err(VaultError::NoteNotFound(relative.to_owned())),
        Followed::Unread(found) => Ok(Step::Look(place_of(vault_root, &found))),
        Followed::Failed(e) => Err(e),
    }
}

/// Resolves a write target, preserving existing component spellings and the new final spelling
/// when the target does not already exist. `parent_inside` says whether the nearest existing
/// parent of a new path lies in the vault, once that is known.
pub fn resolve_for_write(
    vault_root: &str,
    relative: &str,
    seen: &Vec<Reading>,
    parent_inside: Option<bool>,
) -> (r: Result<Step, VaultError>)
    ensures
        step_result(r) == for_write(vault_root@, relative@, seen@, parent_inside),
{
    let normal = match normalize_relative(relative) {
        Ok(n) => n,
        Err(e) => {
            return Err(e);
        },
    };
    let names = names_of(&normal);
    match follow(&names, seen, relative) {
        Followed::Found(found) => Ok(resolved_path(vault_root, &found)),
        Followed::Missing(found) => {
            let ghost all = text::texts(names@);
            let ghost start = text::texts(found@);
            let mut path = found;
            let mut k: usize = path.len();
            while k < names.len()
                invariant
                    start.len() <= k <= names.len(),
                    all == text::texts(names@),
                    text::texts(path@) =~= start + all.subrange(start.len() as int, k as int),
                decreases names.len() - k,
            {
                let ghost before = path@;
                let copy = text::copy_chars(&names[k]);
                path.push(copy);
                assert(text::texts(path@) =~= text::texts(before).push(copy@));
                assert(all[k as int] == copy@);
                k = k + 1;
            }
            assert(text::texts(path@) =~= start + all.skip(start.len() as int));
            match parent_inside {
                None => Ok(Step::LookParent(place_of(vault_root, &path))),
                Some(inside) => if inside {
                    Ok(resolved_path(vault_root, &path))
                } else {
                    Err(VaultError::OutsideVault(relative.to_owned()))
                },
            }
        },
        Followed::Unread(found) => Ok(Step::Look(place_of(vault_root, &found))),
        Followed::Failed(e) => Err(e),
    }
}

/// Computes [`parent_of`].
pub fn parent(path: &str) -> (r: Option<String>)
    ensures
        match r {
            Some(p) => parent_of(path@) == Some(p@),
            None => parent_of(path@) is None,
        },
{
    let chars = text::to_chars(path);
    let sep: [char; 1] = ['/'];
    assert(sep@ == seq!['/']);
    if chars.len() == 0 || text::same_chars(&chars, &sep) {
        return None;
    }
    match text::rfind_in(&chars, &sep) {
        None => Some(String::new()),
        Some(i) => if i == 0 {
            Some(text::from_chars(&sep))
        } else {
            Some(text::from_chars(vstd::slice::slice_subrange(&chars, 0, i)))
        },
    }
}

/// Gives the directories that a resolved write target lies in: relative to the vault, and on
/// disk.
pub fn resolve_parent_for_write(resolved: &ResolvedPath) -> (r: (String, String))
    ensures
        r.0@ == forward_slashes(
            match parent_of(resolved.relative@) {
                Some(p) => p,
                None => Seq::empty(),
            },
        ),
        r.1@ == match parent_of(resolved.absolute@) {
            Some(p) => p,
            None => resolved.absolute@,
        },
{
    let relative = match parent(&resolved.relative) {
        Some(p) => p,
        None => String::new(),
    };
    let absolute = match parent(&resolved.absolute) {
        Some(p) => p,
        None => resolved.absolute.clone(),
    };
    let chars = text::to_chars(&relative);
    (text::from_chars(&with_forward_slashes(&chars)), absolute)
}

// ---------------------------------------------------------------------------
// Order
// ---------------------------------------------------------------------------

/// Whether components come before others, one by one.
pub open spec fn components_less(a: Seq<Seq<char>>, b: Seq<Seq<char>>) -> bool
    decreases a.len(),
{
    if b.len() == 0 {
        false
    } else if a.len() == 0 {
        true
    } else if a[0] != b[0] {
        text::str_less(a[0], b[0])
    } else {
        components_less(a.drop_first(), b.drop_first())
    }
}

/// Whether a relative path comes before another one, component by component.
pub open spec fn path_less(a: Seq<char>, b: Seq<char>) -> bool {
    components_less(components(a), components(b))
}

/// Computes [`path_less`].
pub fn path_comes_before(a: &str, b: &str) -> (r: bool)
    ensures
        r == path_less(a@, b@),
{
    let a_chars = text::to_chars(a);
    let b_chars = text::to_chars(b);
    let x = split_components(&a_chars);
    let y = split_components(&b_chars);
    let ghost xs = text::texts(x@);
    let ghost ys = text::texts(y@);
    let mut i: usize = 0;
    assert(xs.skip(0) =~= xs);
    assert(ys.skip(0) =~= ys);
    loop
        invariant
            i <= x.len(),
            i <= y.len(),
            xs == text::texts(x@),
            ys == text::texts(y@),
            components_less(components(a@), components(b@)) == components_less(
                xs.skip(i as int),
                ys.skip(i as int),
            ),
        decreases x.len() - i,
    {
        assert(xs.len() == x@.len() && ys.len() == y@.len());
        if i == y.len() {
            return false;
        }
        if i == x.len() {
            return true;
        }
        assert(xs[i as int] == x@[i as int]@ && ys[i as int] == y@[i as int]@);
        if !text::same_chars(&x[i], &y[i]) {
            return text::comes_before(&x[i], &y[i]);
        }
        assert(xs.skip(i as int).drop_first() =~= xs.skip(i as int + 1));
        assert(ys.skip(i as int).drop_first() =~= ys.skip(i as int + 1));
        i = i + 1;
    }
}

/// A list of paths in ascending order with one more path, after those that are equal to it.
pub open spec fn with_path_sorted(list: Seq<Seq<char>>, x: Seq<char>) -> Seq<Seq<char>>
    decreases list.len(),
{
    if list.len() == 0 || !path_less(x, list.last()) {
        list.push(x)
    } else {
        with_path_sorted(list.drop_last(), x).push(list.last())
    }
}

/// Whether no path of a list comes before an earlier one.
pub open spec fn paths_ascend(list: Seq<Seq<char>>) -> bool {
    forall|i: int, j: int|
        0 <= i < j < list.len() ==> !path_less(#[trigger] list[j], #[trigger] list[i])
}

proof fn lemma_components_less(a: Seq<Seq<char>>, b: Seq<Seq<char>>)
    ensures
        components_less(a, b) || a == b || components_less(b, a),
        !(components_less(a, b) && components_less(b, a)),
    decreases a.len(),
{
    if a.len() > 0 && b.len() > 0 {
        if a[0] == b[0] {
            lemma_components_less(a.drop_first(), b.drop_first());
            if a.drop_first() == b.drop_first() {
                assert(a =~= seq![a[0]] + a.drop_first());
                assert(b =~= seq![b[0]] + b.drop_first());
            }
        } else {
            text::lemma_str_less_total(a[0], b[0]);
        }
    } else if a.len() == 0 && b.len() == 0 {
        assert(a =~= b);
    }
}

proof fn lemma_components_less_trans(a: Seq<Seq<char>>, b: Seq<Seq<char>>, c: Seq<Seq<char>>)
    requires
        components_less(a, b),
        components_less(b, c),
    ensures
        components_less(a, c),
    decreases a.len(),
{
    if a.len() > 0 && b.len() > 0 && c.len() > 0 {
        if a[0] == b[0] && b[0] == c[0] {
            lemma_components_less_trans(a.drop_first(), b.drop_first(), c.drop_first());
        } else if a[0] != b[0] && b[0] != c[0] {
            text::lemma_str_less_trans(a[0], b[0], c[0]);
            text::lemma_str_less_total(a[0], c[0]);
        }
    }
}

/// Inserting a path into an ascending list keeps it ascending and adds just this path.
pub proof fn law_inserted_path_keeps_order(list: Seq<Seq<char>>, x: Seq<char>)
    requires
        paths_ascend(list),
    ensures
        paths_ascend(with_path_sorted(list, x)),
        forall|y: Seq<char>| #[trigger]
            with_path_sorted(list, x).contains(y) <==> list.contains(y) || y == x,
        with_path_sorted(list, x).len() == list.len() + 1,
    decreases list.len(),
{
    let r = with_path_sorted(list, x);
    let n = list.len() as int;
    if list.len() == 0 || !path_less(x, list.last()) {
        assert forall|i: int, j: int| 0 <= i < j < r.len() implies !path_less(
            #[trigger] r[j],
            #[trigger] r[i],
        ) by {
            if j == n {
                let last = components(list[n - 1]);
                let at = components(list[i]);
                lemma_components_less(last, at);
                if path_less(x, list[i]) && i < n - 1 {
                    assert(!path_less(list[n - 1], list[i]));
                    if components_less(at, last) {
                        lemma_components_less_trans(components(x), at, last);
                    }
                }
            }
        }
        assert forall|y: Seq<char>| #[trigger] r.contains(y) <==> list.contains(y) || y == x by {
            if list.contains(y) {
                let i = choose|i: int| 0 <= i < n && list[i] == y;
                assert(r[i] == y);
            }
            assert(r[n] == x);
        }
    } else {
        let d = list.drop_last();
        let s = with_path_sorted(d, x);
        let last = list.last();
        assert(paths_ascend(d));
        law_inserted_path_keeps_order(d, x);
        lemma_components_less(components(x), components(last));
        assert forall|i: int, j: int| 0 <= i < j < r.len() implies !path_less(
            #[trigger] r[j],
            #[trigger] r[i],
        ) by {
            if j == n {
                assert(s.contains(s[i]));
                if s[i] != x {
                    let h = choose|h: int| 0 <= h < d.len() && d[h] == s[i];
                    assert(list[h] == r[i] && list[n - 1] == r[j]);
                }
            } else {
                assert(s[i] == r[i] && s[j] == r[j]);
            }
        }
        assert forall|y: Seq<char>| #[trigger] r.contains(y) <==> list.contains(y) || y == x by {
            assert(s.contains(y) <==> d.contains(y) || y == x);
            if s.contains(y) {
                let i = choose|i: int| 0 <= i < s.len() && s[i] == y;
                assert(r[i] == y);
            }
            if d.contains(y) {
                let i = choose|i: int| 0 <= i < d.len() && d[i] == y;
                assert(list[i] == y);
            }
            assert(r[n] == last && list[n - 1] == last);
            if list.contains(y) {
                let i = choose|i: int| 0 <= i < n && list[i] == y;
                if i < n - 1 {
                    assert(d[i] == y);
                }
            }
            if r.contains(y) {
                let i = choose|i: int| 0 <= i < r.len() && r[i] == y;
                if i < s.len() {
                    assert(s[i] == y);
                }
            }
        }
    }
}

/// Computes [`with_path_sorted`].
pub fn insert_path_sorted(list: &mut Vec<String>, x: String)
    ensures
        text::strings(final(list)@) == with_path_sorted(text::strings(old(list)@), x@),
{
    let ghost all = text::strings(list@);
    let mut i: usize = list.len();
    assert(all.take(i as int) =~= all);
    assert(with_path_sorted(all, x@) + all.skip(i as int) =~= with_path_sorted(all, x@));
    while i > 0 && path_comes_before(&x, &list[i - 1])
        invariant
            i <= list.len(),
            all == text::strings(list@),
            *old(list) == *list,
            with_path_sorted(all, x@) == with_path_sorted(all.take(i as int), x@) + all.skip(
                i as int,
            ),
        decreases i,
    {
        proof {
            let head = all.take(i as int);
            assert(head.last() == list@[i as int - 1]@);
            assert(head.drop_last() =~= all.take(i as int - 1));
            assert(with_path_sorted(head, x@) + all.skip(i as int) =~= with_path_sorted(
                head.drop_last(),
                x@,
            ) + all.skip(i as int - 1));
        }
        i = i - 1;
    }
    proof {
        let head = all.take(i as int);
        if i > 0 {
            assert(head.last() == list@[i as int - 1]@);
        }
        assert(with_path_sorted(head, x@) == head.push(x@));
        assert(all.insert(i as int, x@) =~= head.push(x@) + all.skip(i as int));
    }
    list.insert(i, x);
    assert(text::strings(list@) =~= all.insert(i as int, x@));
}

// ---------------------------------------------------------------------------
// Laws
// ---------------------------------------------------------------------------

/// Whether components are plain names: no `.` or `..`, no separator in them, none empty.
pub open spec fn all_names(cs: Seq<Seq<char>>) -> bool {
    forall|i: int|
        0 <= i < cs.len() ==> {
            &&& (#[trigger] cs[i]).len() > 0
            &&& cs[i] != seq!['.']
            &&& cs[i] != seq!['.', '.']
            &&& !cs[i].contains('/')
        }
}

proof fn lemma_counting(parts: Seq<Seq<char>>, k: nat)
    requires
        k <= parts.len(),
        forall|i: int| 0 <= i < parts.len() ==> !(#[trigger] parts[i]).contains('/'),
    ensures
        forall|i: int|
            0 <= i < counting(parts, k).len() ==> (#[trigger] counting(parts, k)[i]).len() > 0
                && !counting(parts, k)[i].contains('/'),
    decreases k,
{
    if k > 0 {
        lemma_counting(parts, (k - 1) as nat);
        let before = counting(parts, (k - 1) as nat);
        let all = counting(parts, k);
        assert(!parts[k - 1].contains('/'));
        assert forall|i: int| 0 <= i < all.len() implies (#[trigger] all[i]).len() > 0
            && !all[i].contains('/') by {
            if i < before.len() {
                assert(before[i] == all[i]);
            }
        }
    }
}

proof fn lemma_walked(cs: Seq<Seq<char>>, k: nat)
    requires
        k <= cs.len(),
        forall|i: int|
            0 <= i < cs.len() ==> (#[trigger] cs[i]).len() > 0 && !cs[i].contains('/'),
    ensures
        walked(cs, k) matches Some(at) ==> all_names(at),
    decreases k,
{
    if k > 0 {
        lemma_walked(cs, (k - 1) as nat);
    }
}

proof fn lemma_counting_names(cs: Seq<Seq<char>>, k: nat)
    requires
        k <= cs.len(),
        all_names(cs),
    ensures
        counting(cs, k) == cs.take(k as int),
        walked(cs, k) == Some(cs.take(k as int)),
        named(cs, k) == cs.take(k as int),
    decreases k,
{
    if k > 0 {
        lemma_counting_names(cs, (k - 1) as nat);
        assert(cs.take(k as int) =~= cs.take(k as int - 1).push(cs[k as int - 1]));
    } else {
        assert(cs.take(0) =~= Seq::<Seq<char>>::empty());
    }
}

/// Names, put together to a path, are the components of the path.
proof fn lemma_components_of_join(names: Seq<Seq<char>>)
    requires
        all_names(names),
    ensures
        components(text::join(names, seq!['/'])) == names,
        !is_absolute(text::join(names, seq!['/'])),
{
    let path = text::join(names, seq!['/']);
    if names.len() == 0 {
        text::lemma_find_absent(path, '/');
        let parts = text::split(path, seq!['/']);
        assert(parts =~= seq![path]);
        reveal_with_fuel(counting, 2);
        assert(components(path) =~= names);
    } else {
        text::lemma_split_join(names, '/');
        lemma_counting_names(names, names.len());
        assert(names.take(names.len() as int) =~= names);
        if names.len() > 1 {
            text::lemma_join_front(names, seq!['/']);
        }
        assert(path[0] == names[0][0]);
        assert(names[0].contains(names[0][0]));
    }
}

proof fn lemma_join_chars(parts: Seq<Seq<char>>, c: char)
    requires
        c != '/',
        forall|i: int| 0 <= i < parts.len() ==> !(#[trigger] parts[i]).contains(c),
    ensures
        !text::join(parts, seq!['/']).contains(c),
    decreases parts.len(),
{
    if parts.len() > 1 {
        assert forall|i: int| 0 <= i < parts.drop_last().len() implies !(
        #[trigger] parts.drop_last()[i]).contains(c) by {
            assert(parts.drop_last()[i] == parts[i]);
        }
        lemma_join_chars(parts.drop_last(), c);
        let s = text::join(parts, seq!['/']);
        let head = text::join(parts.drop_last(), seq!['/']);
        assert(!parts[parts.len() - 1].contains(c));
        if s.contains(c) {
            let i = choose|i: int| 0 <= i < s.len() && s[i] == c;
            if i < head.len() {
                assert(head[i] == c);
            } else if i > head.len() {
                assert(parts.last()[i - head.len() - 1] == c);
            }
        }
    } else if parts.len() == 1 {
        assert(!parts[0].contains(c));
    }
}

proof fn lemma_split_chars(s: Seq<char>, c: char)
    requires
        !s.contains(c),
    ensures
        forall|i: int|
            0 <= i < text::split(s, seq!['/']).len() ==> !(#[trigger] text::split(
                s,
                seq!['/'],
            )[i]).contains(c),
    decreases s.len(),
{
    text::lemma_find_first(s, '/');
    if let Some(i) = text::find(s, seq!['/']) {
        let rest = s.skip(i as int + 1);
        if rest.contains(c) {
            let j = choose|j: int| 0 <= j < rest.len() && rest[j] == c;
            assert(s[j + i + 1] == c);
        }
        lemma_split_chars(rest, c);
        let head = s.take(i as int);
        if head.contains(c) {
            let j = choose|j: int| 0 <= j < head.len() && head[j] == c;
            assert(s[j] == c);
        }
        let all = text::split(s, seq!['/']);
        assert forall|k: int| 0 <= k < all.len() implies !(#[trigger] all[k]).contains(c) by {
            if k > 0 {
                assert(text::split(rest, seq!['/'])[k - 1] == all[k]);
            }
        }
    }
}

proof fn lemma_counting_chars(parts: Seq<Seq<char>>, k: nat, c: char)
    requires
        k <= parts.len(),
        forall|i: int| 0 <= i < parts.len() ==> !(#[trigger] parts[i]).contains(c),
    ensures
        forall|i: int|
            0 <= i < counting(parts, k).len() ==> !(#[trigger] counting(parts, k)[i]).contains(c),
    decreases k,
{
    if k > 0 {
        lemma_counting_chars(parts, (k - 1) as nat, c);
        let before = counting(parts, (k - 1) as nat);
        let all = counting(parts, k);
        assert(!parts[k - 1].contains(c));
        assert forall|i: int| 0 <= i < all.len() implies !(#[trigger] all[i]).contains(c) by {
            if i < before.len() {
                assert(before[i] == all[i]);
            }
        }
    }
}

proof fn lemma_walked_chars(cs: Seq<Seq<char>>, k: nat, c: char)
    requires
        k <= cs.len(),
        forall|i: int| 0 <= i < cs.len() ==> !(#[trigger] cs[i]).contains(c),
    ensures
        walked(cs, k) matches Some(at) ==> forall|i: int|
            0 <= i < at.len() ==> !(#[trigger] at[i]).contains(c),
    decreases k,
{
    if k > 0 {
        lemma_walked_chars(cs, (k - 1) as nat, c);
    }
}

/// The file name of an ASCII path is ASCII.
pub proof fn lemma_ascii_file_name(path: Seq<char>)
    requires
        text::is_ascii(path),
    ensures
        text::is_ascii(file_name(path)),
{
    let parts = text::split(path, seq!['/']);
    let name = file_name(path);
    assert forall|i: int| 0 <= i < name.len() implies (#[trigger] name[i]) as u32 <= 127 by {
        let c = name[i];
        if c as u32 > 127 {
            assert(!path.contains(c)) by {
                if path.contains(c) {
                    let j = choose|j: int| 0 <= j < path.len() && path[j] == c;
                    assert(path[j] as u32 <= 127);
                }
            }
            lemma_split_chars(path, c);
            lemma_counting_chars(parts, parts.len(), c);
            let cs = components(path);
            assert(!cs[cs.len() - 1].contains(c));
            assert(name.contains(c));
        }
    }
}

/// A path that is accepted is normalized to plain names below the root of the vault: nothing in
/// it leads up or starts at a root, it is tidy and free of backslashes, and normalizing it once
/// more changes nothing. A path that starts at a root is never accepted.
pub proof fn law_normalized_path_stays_in_the_vault(path: Seq<char>)
    ensures
        normalized(path) matches Ok(n) ==> {
            &&& all_names(components(n))
            &&& path_names(n) == components(n)
            &&& !is_absolute(n)
            &&& !n.contains('\\')
            &&& tidy(n) == n
            &&& normalized(n) == Ok::<Seq<char>, ErrorView>(n)
        },
        is_absolute(path) ==> normalized(path) is Err,
{
    let slashed = forward_slashes(path);
    let parts = text::split(slashed, seq!['/']);
    let cs = components(slashed);
    lemma_no_backslash(path);
    text::lemma_split_parts(slashed, '/');
    lemma_counting(parts, parts.len());
    lemma_walked(cs, cs.len());
    lemma_split_chars(slashed, '\\');
    lemma_counting_chars(parts, parts.len(), '\\');
    lemma_walked_chars(cs, cs.len(), '\\');
    if let Ok(n) = normalized(path) {
        let at = walked(cs, cs.len())->0;
        lemma_join_chars(at, '\\');
        lemma_components_of_join(at);
        lemma_counting_names(at, at.len());
        assert(at.take(at.len() as int) =~= at);
        assert(Seq::<char>::empty() + n =~= n);
        assert(forward_slashes(n) =~= n) by {
            assert forall|i: int| 0 <= i < n.len() implies n[i] != '\\' by {
                if n[i] == '\\' {
                    assert(n.contains('\\'));
                }
            }
        }
    }
}

proof fn lemma_no_backslash(path: Seq<char>)
    ensures
        !forward_slashes(path).contains('\\'),
{
    let s = forward_slashes(path);
    if s.contains('\\') {
        let i = choose|i: int| 0 <= i < s.len() && s[i] == '\\';
        assert(s[i] != '\\');
    }
}

// ---------------------------------------------------------------------------
// Spellings of a path
// ---------------------------------------------------------------------------

/// Whether components are those of a path: none is empty or holds a separator, and only the
/// first one can be `.`.
spec fn component_like(cs: Seq<Seq<char>>) -> bool {
    &&& forall|i: int|
        0 <= i < cs.len() ==> (#[trigger] cs[i]).len() > 0 && !cs[i].contains('/')
    &&& forall|i: int| 0 < i < cs.len() ==> #[trigger] cs[i] != seq!['.']
}

proof fn lemma_counting_dots(parts: Seq<Seq<char>>, k: nat)
    requires
        k <= parts.len(),
    ensures
        forall|i: int|
            0 <= i < counting(parts, k).len() && #[trigger] counting(parts, k)[i] == seq!['.'] ==> i
                == 0 && parts[0] == seq!['.'],
        k > 0 && counting(parts, k).len() == 0 ==> parts[0].len() == 0,
        k > 0 && parts[0].len() > 0 ==> counting(parts, k).len() > 0 && counting(parts, k)[0]
            == parts[0],
    decreases k,
{
    if k > 0 {
        lemma_counting_dots(parts, (k - 1) as nat);
        let before = counting(parts, (k - 1) as nat);
        let all = counting(parts, k);
        if k == 1 {
            assert(before.len() == 0);
        }
        assert forall|i: int| 0 <= i < all.len() && #[trigger] all[i] == seq!['.'] implies i == 0
            && parts[0] == seq!['.'] by {
            if i < before.len() {
                assert(before[i] == all[i]);
            }
        }
    }
}

proof fn lemma_components_form(path: Seq<char>)
    ensures
        component_like(components(path)),
        is_absolute(path) ==> forall|i: int|
            0 <= i < components(path).len() ==> #[trigger] components(path)[i] != seq!['.'],
{
    let parts = text::split(path, seq!['/']);
    text::lemma_split_parts(path, '/');
    lemma_counting(parts, parts.len());
    lemma_counting_dots(parts, parts.len());
    if is_absolute(path) {
        assert(path.subrange(0, 1) =~= seq!['/']);
        assert(text::find(path, seq!['/']) == Some(0nat));
        assert(parts[0] =~= Seq::<char>::empty());
    }
}

proof fn lemma_counting_like(cs: Seq<Seq<char>>, k: nat)
    requires
        k <= cs.len(),
        component_like(cs),
    ensures
        counting(cs, k) == cs.take(k as int),
    decreases k,
{
    if k > 0 {
        lemma_counting_like(cs, (k - 1) as nat);
        assert(cs.take(k as int) =~= cs.take(k as int - 1).push(cs[k as int - 1]));
    } else {
        assert(cs.take(0) =~= Seq::<Seq<char>>::empty());
    }
}

proof fn lemma_join_first(parts: Seq<Seq<char>>)
    requires
        parts.len() > 0,
        parts[0].len() > 0,
    ensures
        text::join(parts, seq!['/']).len() > 0,
        text::join(parts, seq!['/'])[0] == parts[0][0],
{
    if parts.len() > 1 {
        text::lemma_join_front(parts, seq!['/']);
    }
}

/// Components, put together to a path, are the components of the path.
proof fn lemma_components_of_like(cs: Seq<Seq<char>>)
    requires
        component_like(cs),
    ensures
        components(text::join(cs, seq!['/'])) == cs,
        !is_absolute(text::join(cs, seq!['/'])),
{
    let path = text::join(cs, seq!['/']);
    if cs.len() == 0 {
        lemma_components_of_join(cs);
    } else {
        text::lemma_split_join(cs, '/');
        lemma_counting_like(cs, cs.len());
        assert(cs.take(cs.len() as int) =~= cs);
        lemma_join_first(cs);
        assert(cs[0].contains(cs[0][0]));
    }
}

proof fn lemma_counting_below_root(cs: Seq<Seq<char>>, k: nat)
    requires
        k <= cs.len(),
        component_like(cs),
        forall|i: int| 0 <= i < cs.len() ==> #[trigger] cs[i] != seq!['.'],
    ensures
        counting(seq![Seq::<char>::empty()] + cs, k + 1) == cs.take(k as int),
    decreases k,
{
    let all = seq![Seq::<char>::empty()] + cs;
    if k > 0 {
        lemma_counting_below_root(cs, (k - 1) as nat);
        assert(all[k as int] == cs[k as int - 1]);
        assert(cs.take(k as int) =~= cs.take(k as int - 1).push(cs[k as int - 1]));
    } else {
        assert(all[0].len() == 0);
        reveal_with_fuel(counting, 2);
        assert(cs.take(0) =~= Seq::<Seq<char>>::empty());
    }
}

/// All spellings of a path have the same tidy form, which is a spelling of the path itself and
/// has the same file name; different paths have different tidy forms.
pub proof fn law_tidy_path_is_the_path(a: Seq<char>, b: Seq<char>)
    ensures
        components(tidy(a)) == components(a),
        is_absolute(tidy(a)) == is_absolute(a),
        tidy(tidy(a)) == tidy(a),
        file_name(tidy(a)) == file_name(a),
        same_place(a, b) <==> tidy(a) == tidy(b),
{
    lemma_tidy(a);
    lemma_tidy(b);
}

proof fn lemma_tidy(path: Seq<char>)
    ensures
        components(tidy(path)) == components(path),
        is_absolute(tidy(path)) == is_absolute(path),
        tidy(tidy(path)) == tidy(path),
{
    let cs = components(path);
    let joined = text::join(cs, seq!['/']);
    lemma_components_form(path);
    if is_absolute(path) {
        let t = seq!['/'] + joined;
        assert(t.subrange(0, 1) =~= seq!['/']);
        assert(t.take(0) =~= Seq::<char>::empty());
        assert(t.skip(1) =~= joined);
        assert(text::find(t, seq!['/']) == Some(0nat));
        assert(text::split(t, seq!['/']) == seq![Seq::<char>::empty()] + text::split(
            joined,
            seq!['/'],
        ));
        if cs.len() == 0 {
            text::lemma_find_absent(joined, '/');
            assert(text::split(joined, seq!['/']) =~= seq![joined]);
            reveal_with_fuel(counting, 3);
            assert(components(t) =~= cs);
        } else {
            text::lemma_split_join(cs, '/');
            lemma_counting_below_root(cs, cs.len());
            assert(cs.take(cs.len() as int) =~= cs);
        }
    } else {
        lemma_components_of_like(cs);
        assert(tidy(path) =~= joined);
    }
}

/// What lies below a root is tidy.
pub proof fn lemma_tidy_below(root: Seq<char>, absolute: Seq<char>)
    ensures
        components_below(root, absolute) matches Some(below) ==> tidy(text::join(below, seq!['/']))
            == text::join(below, seq!['/']),
{
    if let Some(below) = components_below(root, absolute) {
        lemma_components_form(absolute);
        let n = components(root).len() as int;
        assert forall|i: int| 0 <= i < below.len() implies (#[trigger] below[i]).len() > 0
            && !below[i].contains('/') by {
            assert(below[i] == components(absolute)[i + n]);
        }
        assert forall|i: int| 0 < i < below.len() implies #[trigger] below[i] != seq!['.'] by {
            assert(below[i] == components(absolute)[i + n]);
        }
        lemma_components_of_like(below);
        assert(tidy(text::join(below, seq!['/'])) =~= text::join(below, seq!['/']));
    }
}

// ---------------------------------------------------------------------------
// Paths below a root
// ---------------------------------------------------------------------------

/// The parts among the first `k` that are neither empty nor `.`.
spec fn solid(parts: Seq<Seq<char>>, k: nat) -> Seq<Seq<char>>
    decreases k,
{
    if k == 0 {
        Seq::empty()
    } else {
        let before = solid(parts, (k - 1) as nat);
        if parts[k - 1].len() > 0 && parts[k - 1] != seq!['.'] {
            before.push(parts[k - 1])
        } else {
            before
        }
    }
}

/// The parts of a path that are neither empty nor `.`.
spec fn pieces(path: Seq<char>) -> Seq<Seq<char>> {
    let parts = text::split(path, seq!['/']);
    solid(parts, parts.len())
}

/// The pieces of parts in which a `\` separates as well.
spec fn flat(parts: Seq<Seq<char>>) -> Seq<Seq<char>>
    decreases parts.len(),
{
    if parts.len() == 0 {
        Seq::empty()
    } else {
        flat(parts.drop_last()) + pieces(forward_slashes(parts.last()))
    }
}

proof fn lemma_solid_add(a: Seq<Seq<char>>, b: Seq<Seq<char>>, k: nat)
    requires
        k <= b.len(),
    ensures
        solid(a + b, a.len() + k) == solid(a, a.len()) + solid(b, k),
        a.len() > 0 ==> counting(a + b, a.len() + k) == counting(a, a.len()) + solid(b, k),
    decreases k,
{
    if k == 0 {
        lemma_solid_prefix(a, b, a.len());
        assert(solid(a, a.len()) + solid(b, k) =~= solid(a, a.len()));
        assert(counting(a, a.len()) + solid(b, k) =~= counting(a, a.len()));
    } else {
        lemma_solid_add(a, b, (k - 1) as nat);
        assert((a + b)[a.len() + k - 1] == b[k - 1]);
        assert(solid(a + b, a.len() + k) =~= solid(a, a.len()) + solid(b, k));
        if a.len() > 0 {
            assert(counting(a + b, a.len() + k) =~= counting(a, a.len()) + solid(b, k));
        }
    }
}

proof fn lemma_solid_prefix(a: Seq<Seq<char>>, b: Seq<Seq<char>>, k: nat)
    requires
        k <= a.len(),
    ensures
        solid(a + b, k) == solid(a, k),
        counting(a + b, k) == counting(a, k),
    decreases k,
{
    if k > 0 {
        lemma_solid_prefix(a, b, (k - 1) as nat);
        assert((a + b)[k - 1] == a[k - 1]);
    }
}

proof fn lemma_pieces_add(a: Seq<char>, b: Seq<char>)
    ensures
        pieces(a + seq!['/'] + b) == pieces(a) + pieces(b),
{
    text::lemma_split_add(a, '/', b);
    lemma_solid_add(
        text::split(a, seq!['/']),
        text::split(b, seq!['/']),
        text::split(b, seq!['/']).len(),
    );
}

proof fn lemma_pieces_of_nothing()
    ensures
        pieces(forward_slashes(Seq::empty())) == Seq::<Seq<char>>::empty(),
        pieces(forward_slashes(seq!['.'])) == Seq::<Seq<char>>::empty(),
{
    let none = Seq::<char>::empty();
    assert(forward_slashes(none) =~= none);
    text::lemma_find_absent(none, '/');
    assert(text::split(none, seq!['/']) =~= seq![none]);
    let dot = seq!['.'];
    assert(forward_slashes(dot) =~= dot);
    text::lemma_find_absent(dot, '/');
    assert(text::split(dot, seq!['/']) =~= seq![dot]);
    reveal_with_fuel(solid, 2);
}

proof fn lemma_pieces_of_join(parts: Seq<Seq<char>>)
    ensures
        pieces(forward_slashes(text::join(parts, seq!['/']))) == flat(parts),
    decreases parts.len(),
{
    lemma_pieces_of_nothing();
    if parts.len() == 1 {
        reveal_with_fuel(flat, 2);
        assert(flat(parts) =~= pieces(forward_slashes(parts[0])));
    } else if parts.len() > 1 {
        lemma_pieces_of_join(parts.drop_last());
        let head = text::join(parts.drop_last(), seq!['/']);
        assert(forward_slashes(head + seq!['/'] + parts.last()) =~= forward_slashes(head) + seq![
            '/',
        ] + forward_slashes(parts.last()));
        lemma_pieces_add(forward_slashes(head), forward_slashes(parts.last()));
    }
}

proof fn lemma_flat_solid(parts: Seq<Seq<char>>, k: nat)
    requires
        k <= parts.len(),
    ensures
        flat(solid(parts, k)) == flat(parts.take(k as int)),
    decreases k,
{
    if k > 0 {
        lemma_flat_solid(parts, (k - 1) as nat);
        lemma_pieces_of_nothing();
        let last = parts[k - 1];
        let before = solid(parts, (k - 1) as nat);
        assert(parts.take(k as int).drop_last() =~= parts.take(k as int - 1));
        assert(parts.take(k as int).last() == last);
        if last.len() > 0 && last != seq!['.'] {
            assert(before.push(last).drop_last() =~= before);
        } else {
            if last.len() == 0 {
                assert(last =~= Seq::<char>::empty());
            }
            assert(flat(parts.take(k as int)) =~= flat(parts.take(k as int - 1)));
        }
    } else {
        assert(parts.take(0) =~= Seq::<Seq<char>>::empty());
    }
}

proof fn lemma_walked_prefix(a: Seq<Seq<char>>, b: Seq<Seq<char>>, k: nat)
    requires
        k <= a.len(),
    ensures
        walked(a + b, k) == walked(a, k),
    decreases k,
{
    if k > 0 {
        lemma_walked_prefix(a, b, (k - 1) as nat);
        assert((a + b)[k - 1] == a[k - 1]);
    }
}

proof fn lemma_walked_push(a: Seq<Seq<char>>, x: Seq<char>)
    ensures
        walked(a.push(x), a.len()) == walked(a, a.len()),
{
    lemma_walked_prefix(a, seq![x], a.len());
    assert(a + seq![x] =~= a.push(x));
}

/// Dots make no difference to where a path leads.
proof fn lemma_walked_solid(parts: Seq<Seq<char>>, k: nat)
    requires
        k <= parts.len(),
    ensures
        walked(counting(parts, k), counting(parts, k).len()) == walked(
            solid(parts, k),
            solid(parts, k).len(),
        ),
    decreases k,
{
    if k > 0 {
        lemma_walked_solid(parts, (k - 1) as nat);
        let x = parts[k - 1];
        lemma_walked_push(counting(parts, (k - 1) as nat), x);
        lemma_walked_push(solid(parts, (k - 1) as nat), x);
    }
}

/// What is solid among the components is all of them but a dot at the start.
proof fn lemma_solid_counting(parts: Seq<Seq<char>>, k: nat)
    requires
        k <= parts.len(),
    ensures
        ({
            let cs = counting(parts, k);
            solid(parts, k) == if cs.len() > 0 && cs[0] == seq!['.'] {
                cs.drop_first()
            } else {
                cs
            }
        }),
    decreases k,
{
    if k > 0 {
        lemma_solid_counting(parts, (k - 1) as nat);
        lemma_counting_dots(parts, (k - 1) as nat);
        lemma_counting_dots(parts, k);
        let before = counting(parts, (k - 1) as nat);
        let x = parts[k - 1];
        if k == 1 {
            reveal_with_fuel(counting, 2);
            reveal_with_fuel(solid, 2);
            if x.len() > 0 {
                assert(counting(parts, 1) =~= seq![x]);
                assert(seq![x].drop_first() =~= Seq::<Seq<char>>::empty());
            }
        } else if x.len() > 0 && x != seq!['.'] {
            if before.len() > 0 && before[0] == seq!['.'] {
                assert(before.push(x).drop_first() =~= before.drop_first().push(x));
            }
        }
    }
}

/// The path below the root of the vault of a relative path that was put below the root is that
/// path in normalized form, or is rejected where the path itself is. A path that does not lie
/// below the root is outside the vault.
pub proof fn law_relative_path_of_joined_path(root: Seq<char>, p: Seq<char>, absolute: Seq<char>)
    requires
        is_absolute(root),
        !is_absolute(p),
    ensures
        match normalized(p) {
            Ok(n) => below_root(root, joined_path(root, p)) == Ok::<Seq<char>, ErrorView>(n),
            Err(_) => below_root(root, joined_path(root, p)) is Err,
        },
        !(is_absolute(absolute) && components(root).is_prefix_of(components(absolute)))
            ==> below_root(root, absolute) == Err::<Seq<char>, ErrorView>(
            ErrorView::OutsideVault(absolute),
        ),
{
    let whole = joined_path(root, p);
    let parts = text::split(p, seq!['/']);
    let below = pieces(p);
    let base = if root.last() == '/' {
        root.drop_last()
    } else {
        root
    };
    let base_parts = text::split(base, seq!['/']);
    text::lemma_join_split(base, '/');
    text::lemma_join_split(p, '/');
    assert(whole =~= base + seq!['/'] + p);
    text::lemma_split_add(base, '/', p);
    lemma_solid_add(base_parts, parts, parts.len());
    assert(components(whole) == components(base) + below);
    assert(components(root) == components(base)) by {
        if root.last() == '/' {
            let none = Seq::<char>::empty();
            assert(root =~= base + seq!['/'] + none);
            text::lemma_split_add(base, '/', none);
            text::lemma_find_absent(none, '/');
            assert(text::split(none, seq!['/']) =~= seq![none]);
            lemma_solid_add(base_parts, seq![none], 1);
            reveal_with_fuel(solid, 2);
            assert(components(base) + solid(seq![none], 1) =~= components(base));
        }
    }
    assert(components(whole).skip(components(root).len() as int) =~= below);
    assert(components(whole).subrange(0, components(root).len() as int) =~= components(root));
    assert(whole[0] == root[0]);
    assert(components_below(root, whole) == Some(below));
    let short = text::join(below, seq!['/']);
    lemma_pieces_of_join(below);
    lemma_pieces_of_join(parts);
    lemma_flat_solid(parts, parts.len());
    assert(parts.take(parts.len() as int) =~= parts);
    assert(pieces(forward_slashes(short)) == pieces(forward_slashes(p)));
    lemma_walked_solid(
        text::split(forward_slashes(short), seq!['/']),
        text::split(forward_slashes(short), seq!['/']).len(),
    );
    lemma_walked_solid(
        text::split(forward_slashes(p), seq!['/']),
        text::split(forward_slashes(p), seq!['/']).len(),
    );
    lemma_pieces_start(p);
}

/// Put together again, the pieces of a path are a relative path.
proof fn lemma_pieces_start(p: Seq<char>)
    ensures
        !is_absolute(text::join(pieces(p), seq!['/'])),
{
    let parts = text::split(p, seq!['/']);
    let below = pieces(p);
    lemma_components_form(p);
    lemma_solid_counting(parts, parts.len());
    if below.len() > 0 {
        if components(p)[0] == seq!['.'] {
            assert(below[0] == components(p)[1]);
        } else {
            assert(below[0] == components(p)[0]);
        }
        assert(below[0].contains(below[0][0]));
        lemma_join_first(below);
    }
}

proof fn lemma_same_key(names: Seq<Seq<char>>, k: nat, requested: Seq<char>)
    requires
        k <= names.len(),
    ensures
        forall|i: int|
            0 <= i < same_key(names, k, requested).len() ==> names.contains(
                #[trigger] same_key(names, k, requested)[i],
            ) && nfc(same_key(names, k, requested)[i]) == nfc(requested),
    decreases k,
{
    if k > 0 {
        lemma_same_key(names, (k - 1) as nat, requested);
        assert(names.contains(names[k - 1]));
        let before = same_key(names, (k - 1) as nat, requested);
        let all = same_key(names, k, requested);
        assert forall|i: int| 0 <= i < all.len() implies names.contains(#[trigger] all[i]) && nfc(
            all[i],
        ) == nfc(requested) by {
            if i < before.len() {
                assert(before[i] == all[i]);
            }
        }
    }
}

/// A component is found only under a name that the directory holds and that has the same
/// canonical key; an exact spelling is always preferred.
pub proof fn law_found_component_is_in_the_directory(
    names: Seq<Seq<char>>,
    requested: Seq<char>,
    original: Seq<char>,
)
    ensures
        spelled(names, requested, original) matches Ok(Some(name)) ==> names.contains(name)
            && nfc(name) == nfc(requested),
        names.contains(requested) ==> spelled(names, requested, original) == Ok::<
            Option<Seq<char>>,
            ErrorView,
        >(Some(requested)),
{
    lemma_same_key(names, names.len(), requested);
}

proof fn lemma_walk(
    names: Seq<Seq<char>>,
    found: Seq<Seq<char>>,
    seen: Seq<Reading>,
    original: Seq<char>,
)
    requires
        found.len() <= names.len(),
        forall|i: int|
            0 <= i < found.len() ==> {
                &&& i < seen.len()
                &&& (#[trigger] seen[i]).listing@ matches ListingView::Names(here)
                &&& here.contains(found[i])
                &&& nfc(found[i]) == nfc(names[i])
            },
        forall|i: int| 0 < i < found.len() ==> (#[trigger] seen[i]).inside,
    ensures
        walk(names, found, seen, original) matches Walk::Found(all) ==> {
            &&& all.len() == names.len()
            &&& names.len() < seen.len()
            &&& forall|i: int| 0 < i <= names.len() ==> (#[trigger] seen[i]).inside
            &&& forall|i: int|
                0 <= i < names.len() ==> {
                    &&& (#[trigger] seen[i]).listing@ matches ListingView::Names(here)
                    &&& here.contains(all[i])
                    &&& nfc(all[i]) == nfc(names[i])
                }
        },
    decreases names.len() - found.len(),
{
    let i = found.len() as int;
    if i < seen.len() && i < names.len() && (i == 0 || seen[i].inside) {
        if let ListingView::Names(here) = seen[i].listing@ {
            law_found_component_is_in_the_directory(here, names[i], original);
            if let Ok(Some(name)) = spelled(here, names[i], original) {
                lemma_walk(names, found.push(name), seen, original);
            }
        }
    }
}

/// A resolved path exists component by component: each name is held by the directory before it
/// and has the canonical key of the name that was asked for, and no place on the way leads out
/// of the vault.
pub proof fn law_resolved_path_exists(
    names: Seq<Seq<char>>,
    seen: Seq<Reading>,
    original: Seq<char>,
)
    requires
        names.len() > 0,
    ensures
        walk_path(names, seen, original) matches Walk::Found(all) ==> {
            &&& all.len() == names.len()
            &&& names.len() < seen.len()
            &&& forall|i: int| 0 < i <= names.len() ==> (#[trigger] seen[i]).inside
            &&& forall|i: int|
                0 <= i < names.len() ==> {
                    &&& (#[trigger] seen[i]).listing@ matches ListingView::Names(here)
                    &&& here.contains(all[i])
                    &&& nfc(all[i]) == nfc(names[i])
                }
        },
{
    lemma_walk(names, Seq::empty(), seen, original);
}

// ---------------------------------------------------------------------------
// Names, steps and places
// ---------------------------------------------------------------------------

/// Whether a text is a name: one component of a path that is neither `.` nor `..`.
pub open spec fn is_name(name: Seq<char>) -> bool {
    &&& name.len() > 0
    &&& !name.contains('/')
    &&& !name.contains('\\')
    &&& name != seq!['.']
    &&& name != seq!['.', '.']
}

proof fn lemma_split_name(name: Seq<char>)
    requires
        !name.contains('/'),
    ensures
        text::split(name, seq!['/']) == seq![name],
{
    let parts = seq![name];
    text::lemma_split_join(parts, '/');
    assert(text::join(parts, seq!['/']) == name);
}

proof fn lemma_last_component(p: Seq<char>, name: Seq<char>)
    requires
        !name.contains('/'),
    ensures
        components(p + seq!['/'] + name) == if name.len() > 0 && name != seq!['.'] {
            components(p).push(name)
        } else {
            components(p)
        },
{
    let a = text::split(p, seq!['/']);
    let b = seq![name];
    lemma_split_name(name);
    text::lemma_split_add(p, '/', name);
    text::lemma_join_split(p, '/');
    lemma_solid_add(a, b, 1);
    reveal_with_fuel(solid, 2);
    assert((a + b).len() == a.len() + 1);
    assert(components(p + seq!['/'] + name) == counting(a, a.len()) + solid(b, 1));
    if name.len() > 0 && name != seq!['.'] {
        assert(solid(b, 1) =~= seq![name]);
        assert(components(p) + seq![name] =~= components(p).push(name));
    } else {
        assert(solid(b, 1) =~= Seq::<Seq<char>>::empty());
        assert(components(p) + Seq::<Seq<char>>::empty() =~= components(p));
    }
}

/// A path is the names in it: a `/` at its end, two of them in a row and a `.` between them mean
/// nothing, and what stands behind the last `/` is the last name.
pub proof fn law_components_of_path(p: Seq<char>, name: Seq<char>)
    requires
        !name.contains('/'),
        name.len() > 0,
    ensures
        components(Seq::empty()) == Seq::<Seq<char>>::empty(),
        components(name) == seq![name],
        components(p + seq!['/']) == components(p),
        components(p + seq!['/', '.']) == components(p),
        name != seq!['.'] ==> components(p + seq!['/'] + name) == components(p).push(name),
        name != seq!['.'] ==> components(p + seq!['/', '/'] + name) == components(p).push(name),
{
    let none = Seq::<char>::empty();
    lemma_split_name(none);
    lemma_split_name(name);
    reveal_with_fuel(counting, 2);
    assert(components(none) =~= Seq::<Seq<char>>::empty());
    assert(components(name) =~= seq![name]);
    lemma_last_component(p, none);
    assert(p + seq!['/'] + none =~= p + seq!['/']);
    lemma_last_component(p, seq!['.']);
    assert(p + seq!['/'] + seq!['.'] =~= p + seq!['/', '.']);
    lemma_last_component(p, name);
    lemma_last_component(p + seq!['/'], name);
    assert(p + seq!['/'] + seq!['/'] + name =~= p + seq!['/', '/'] + name);
}

/// The name of a file is the last name of its path, whatever comes before it; a path that ends in
/// `..` or that is `.` or empty has none.
pub proof fn law_file_name(p: Seq<char>, name: Seq<char>)
    requires
        is_name(name),
    ensures
        file_name(name) == name,
        file_name(p + seq!['/'] + name) == name,
        file_name(p + seq!['/'] + name + seq!['/']) == name,
        file_name(p + seq!['/', '.', '.']).len() == 0,
        file_name(seq!['.']).len() == 0,
        file_name(Seq::empty()).len() == 0,
        file_stem(p + seq!['/'] + name) == stem_of(name),
{
    law_components_of_path(p, name);
    law_components_of_path(p + seq!['/'] + name, name);
    let up = seq!['.', '.'];
    assert(!up.contains('/'));
    law_components_of_path(p, up);
    assert(p + seq!['/'] + up =~= p + seq!['/', '.', '.']);
    let dot = seq!['.'];
    assert(!dot.contains('/'));
    law_components_of_path(p, dot);
    assert(up != dot) by {
        assert(up.len() != dot.len());
    }
}

proof fn lemma_last_dot(stem: Seq<char>, ext: Seq<char>)
    requires
        !ext.contains('.'),
    ensures
        text::rfind(stem + seq!['.'] + ext, seq!['.']) == Some(stem.len()),
        text::rfind(ext, seq!['.']) is None,
    decreases ext.len(),
{
    let dot = seq!['.'];
    let s = stem + dot + ext;
    if ext.len() == 0 {
        assert(dot.is_suffix_of(s)) by {
            assert(s.skip(s.len() - 1) =~= dot);
        }
        assert(!dot.is_suffix_of(ext));
    } else {
        let d = ext.drop_last();
        assert(ext.contains(ext.last()));
        assert(!d.contains('.')) by {
            if d.contains('.') {
                let i = choose|i: int| 0 <= i < d.len() && d[i] == '.';
                assert(ext[i] == '.');
            }
        }
        lemma_last_dot(stem, d);
        assert(s.drop_last() =~= stem + dot + d);
        assert(s.last() == ext.last());
        assert(!dot.is_suffix_of(s)) by {
            assert(s.skip(s.len() - 1)[0] == s.last());
        }
        assert(!dot.is_suffix_of(ext)) by {
            assert(ext.skip(ext.len() - 1)[0] == ext.last());
        }
    }
}

/// A name is its stem, the last dot in it and its extension. A name without a dot, or with none
/// but one at its start, is its stem and has no extension.
pub proof fn law_stem_and_extension(stem: Seq<char>, ext: Seq<char>)
    requires
        !ext.contains('.'),
    ensures
        stem.len() > 0 ==> stem_of(stem + seq!['.'] + ext) == stem,
        stem.len() > 0 ==> extension_of(stem + seq!['.'] + ext) == Some(ext),
        stem_of(seq!['.'] + ext) == seq!['.'] + ext,
        extension_of(seq!['.'] + ext) is None,
        stem_of(ext) == ext,
        extension_of(ext) is None,
{
    let dot = seq!['.'];
    let none = Seq::<char>::empty();
    lemma_last_dot(stem, ext);
    lemma_last_dot(none, ext);
    assert(none + dot + ext =~= dot + ext);
    let s = stem + dot + ext;
    assert(s.take(stem.len() as int) =~= stem);
    assert(s.skip(stem.len() as int + 1) =~= ext);
}

/// A file is Markdown just where its name is something, a dot and `md` in capital or small
/// letters.
pub proof fn law_markdown_files(p: Seq<char>, stem: Seq<char>, ext: Seq<char>)
    requires
        is_name(stem + seq!['.'] + ext),
        !ext.contains('.'),
    ensures
        is_markdown(p + seq!['/'] + (stem + seq!['.'] + ext)) <==> stem.len() > 0 && ext.len() == 2
            && (ext[0] == 'm' || ext[0] == 'M') && (ext[1] == 'd' || ext[1] == 'D'),
        is_markdown(stem + seq!['.'] + ext) <==> is_markdown(
            p + seq!['/'] + (stem + seq!['.'] + ext),
        ),
        is_name(ext) ==> !is_markdown(p + seq!['/'] + ext),
{
    let name = stem + seq!['.'] + ext;
    law_file_name(p, name);
    law_stem_and_extension(stem, ext);
    if stem.len() == 0 {
        assert(name =~= seq!['.'] + ext);
    }
    let md = seq!['m', 'd'];
    if ext.len() == 2 {
        text::law_letter_case(ext[0], md[0]);
        text::law_letter_case(ext[1], md[1]);
    }
    if is_name(ext) {
        law_file_name(p, ext);
    }
}

proof fn lemma_forward_step(p: Seq<char>, sep: char, x: Seq<char>)
    requires
        sep == '/' || sep == '\\',
        !x.contains('\\'),
    ensures
        forward_slashes(p + seq![sep] + x) == forward_slashes(p) + seq!['/'] + x,
{
    let a = forward_slashes(p + seq![sep] + x);
    let b = forward_slashes(p) + seq!['/'] + x;
    assert forall|i: int| 0 <= i < a.len() implies a[i] == b[i] by {
        if i > p.len() {
            assert(x.contains(x[i - p.len() - 1]));
        }
    }
    assert(a =~= b);
}

/// One step more in a path: a name leads into the directory of that name, `.` stays where it is,
/// `..` leads back out again, and `..` at the top of the vault is refused. `\` separates names
/// as `/` does.
pub proof fn law_steps_of_normalized_path(p: Seq<char>, name: Seq<char>, n: Seq<char>, sep: char)
    requires
        p.len() > 0,
        normalized(p) == Ok::<Seq<char>, ErrorView>(n),
        is_name(name),
        sep == '/' || sep == '\\',
    ensures
        normalized(p + seq![sep] + name) == Ok::<Seq<char>, ErrorView>(
            if n.len() == 0 {
                name
            } else {
                n + seq!['/'] + name
            },
        ),
        normalized(p + seq![sep] + seq!['.']) == Ok::<Seq<char>, ErrorView>(n),
        normalized(p + seq![sep] + name + seq![sep] + seq!['.', '.']) == Ok::<
            Seq<char>,
            ErrorView,
        >(n),
        n.len() == 0 ==> normalized(p + seq![sep] + seq!['.', '.']) == Err::<Seq<char>, ErrorView>(
            ErrorView::OutsideVault(p + seq![sep] + seq!['.', '.']),
        ),
{
    let q = forward_slashes(p);
    let cs = components(q);
    let at = walked(cs, cs.len())->0;
    assert(walked(cs, cs.len()) is Some);
    assert(n == text::join(at, seq!['/']));
    let up = seq!['.', '.'];
    let dot = seq!['.'];
    assert(!up.contains('/') && !up.contains('\\'));
    assert(!dot.contains('/') && !dot.contains('\\'));
    assert(up != dot) by {
        assert(up.len() != dot.len());
    }
    lemma_forward_step(p, sep, name);
    lemma_forward_step(p, sep, dot);
    lemma_forward_step(p, sep, up);
    lemma_forward_step(p + seq![sep] + name, sep, up);
    lemma_last_component(q, name);
    lemma_last_component(q, dot);
    lemma_last_component(q, up);
    lemma_last_component(q + seq!['/'] + name, up);
    assert(p[0] == (p + seq![sep] + name)[0]);
    assert(p[0] == (p + seq![sep] + dot)[0]);
    assert(p[0] == (p + seq![sep] + up)[0]);
    assert(p[0] == (p + seq![sep] + name + seq![sep] + up)[0]);
    let one = cs.push(name);
    lemma_walked_push(cs, name);
    assert(walked(one, one.len()) == Some(at.push(name)));
    let two = one.push(up);
    lemma_walked_push(one, up);
    assert(at.push(name).drop_last() =~= at);
    assert(walked(two, two.len()) == Some(at));
    let out = cs.push(up);
    lemma_walked_push(cs, up);
    text::law_join_step(at, name, seq!['/']);
    lemma_components_form(q);
    lemma_walked(cs, cs.len());
    if at.len() > 0 {
        assert(at[0].len() > 0);
        text::law_join_is_empty(at, seq!['/']);
    } else {
        assert(text::join(at, seq!['/']).len() == 0);
    }
}

/// An absolute path is refused for what it is, whatever it holds.
pub proof fn law_absolute_paths_are_refused(p: Seq<char>)
    ensures
        normalized(seq!['/'] + p) == Err::<Seq<char>, ErrorView>(
            ErrorView::InvalidPath("absolute paths not allowed: "@ + (seq!['/'] + p)),
        ),
{
}

/// What a file is called on disk: its root, a `/` and its path below the root.
pub proof fn law_place_below_root(root: Seq<char>, names: Seq<Seq<char>>)
    requires
        root.len() > 0,
        root.last() != '/',
        names.len() > 0,
        all_names(names),
    ensures
        place(root, names) == root + seq!['/'] + text::join(names, seq!['/']),
        place(root, Seq::empty()) == root,
    decreases names.len(),
{
    let d = names.drop_last();
    let sep = seq!['/'];
    assert(names[names.len() - 1].len() > 0);
    assert(names =~= d.push(names.last()));
    text::law_join_step(d, names.last(), sep);
    if d.len() > 0 {
        assert(all_names(d)) by {
            assert forall|i: int| 0 <= i < d.len() implies (#[trigger] d[i]).len() > 0 && d[i]
                != seq!['.'] && d[i] != seq!['.', '.'] && !d[i].contains('/') by {
                assert(d[i] == names[i]);
            }
        }
        law_place_below_root(root, d);
        let b = place(root, d);
        let l = d.last();
        assert(d[d.len() - 1].len() > 0);
        text::law_join_is_empty(d, sep);
        lemma_join_last(d);
        assert(b.last() == l.last());
        assert(l.contains(l.last()));
        assert(b.last() != '/');
        assert(b.push('/') + names.last() =~= root + sep + (text::join(d, sep) + sep
            + names.last()));
    } else {
        assert(place(root, d) == root);
        assert(root.push('/') + names.last() =~= root + sep + names.last());
        assert(text::join(names, sep) == names.last());
    }
}

proof fn lemma_join_last(parts: Seq<Seq<char>>)
    requires
        parts.len() > 0,
        parts.last().len() > 0,
    ensures
        text::join(parts, seq!['/']).len() > 0,
        text::join(parts, seq!['/']).last() == parts.last().last(),
{
}

/// A path in a directory: the directory, a `/` unless it ends in one, and the path; an absolute
/// path stands for itself.
pub proof fn law_joined_paths(base: Seq<char>, name: Seq<char>)
    ensures
        is_absolute(name) ==> joined_path(base, name) == name,
        !is_absolute(name) && base.len() > 0 && base.last() != '/' ==> joined_path(base, name)
            == base + seq!['/'] + name,
        !is_absolute(name) ==> joined_path(base + seq!['/'], name) == base + seq!['/'] + name,
        !is_absolute(name) ==> joined_path(Seq::empty(), name) == name,
{
    if base.len() > 0 && base.last() != '/' {
        assert(base.push('/') + name =~= base + seq!['/'] + name);
    }
    assert(Seq::<char>::empty() + name =~= name);
}

/// The parent of a path is what stands before its last `/`.
pub proof fn law_parent_of_path(p: Seq<char>, name: Seq<char>)
    requires
        !name.contains('/'),
        name.len() > 0,
    ensures
        p.len() > 0 ==> parent_of(p + seq!['/'] + name) == Some(p),
        parent_of(seq!['/'] + name) == Some(seq!['/']),
        parent_of(name) == Some(Seq::<char>::empty()),
        parent_of(Seq::empty()) is None,
        parent_of(seq!['/']) is None,
{
    let sep = seq!['/'];
    let none = Seq::<char>::empty();
    lemma_last_slash(p, name);
    lemma_last_slash(none, name);
    assert(none + sep + name =~= sep + name);
    let s = p + sep + name;
    assert(s.take(p.len() as int) =~= p);
    assert(s.len() > 1);
    assert((sep + name).len() > 1);
    assert(name != sep) by {
        if name == sep {
            assert(name[0] == '/');
        }
    }
}

proof fn lemma_last_slash(p: Seq<char>, name: Seq<char>)
    requires
        !name.contains('/'),
    ensures
        text::rfind(p + seq!['/'] + name, seq!['/']) == Some(p.len()),
        text::rfind(name, seq!['/']) is None,
    decreases name.len(),
{
    let sep = seq!['/'];
    let s = p + sep + name;
    if name.len() == 0 {
        assert(sep.is_suffix_of(s)) by {
            assert(s.skip(s.len() - 1) =~= sep);
        }
        assert(!sep.is_suffix_of(name));
    } else {
        let d = name.drop_last();
        assert(name.contains(name.last()));
        assert(!d.contains('/')) by {
            if d.contains('/') {
                let i = choose|i: int| 0 <= i < d.len() && d[i] == '/';
                assert(name[i] == '/');
            }
        }
        lemma_last_slash(p, d);
        assert(s.drop_last() =~= p + sep + d);
        assert(s.last() == name.last());
        assert(!sep.is_suffix_of(s)) by {
            assert(s.skip(s.len() - 1)[0] == s.last());
        }
        assert(!sep.is_suffix_of(name)) by {
            assert(name.skip(name.len() - 1)[0] == name.last());
        }
    }
}

/// Paths are ordered by the first component in which they differ; a directory comes before what
/// is in it.
pub proof fn law_order_of_paths(p: Seq<Seq<char>>, a: Seq<Seq<char>>, b: Seq<Seq<char>>)
    ensures
        components_less(p, p + a) <==> a.len() > 0,
        a.len() > 0 && b.len() > 0 && a[0] != b[0] ==> (components_less(p + a, p + b)
            <==> text::str_less(a[0], b[0])),
        !components_less(p, p),
    decreases p.len(),
{
    if p.len() > 0 {
        let d = p.drop_first();
        law_order_of_paths(d, a, b);
        assert((p + a).drop_first() =~= d + a);
        assert((p + b).drop_first() =~= d + b);
    } else {
        assert(p + a =~= a);
        assert(p + b =~= b);
    }
}

proof fn lemma_same_key_count(names: Seq<Seq<char>>, k: nat, requested: Seq<char>, i: int, j: int)
    requires
        k <= names.len(),
    ensures
        (forall|x: int| 0 <= x < k ==> nfc(#[trigger] names[x]) != nfc(requested)) ==> same_key(
            names,
            k,
            requested,
        ).len() == 0,
        0 <= i < k && nfc(names[i]) == nfc(requested) ==> same_key(names, k, requested).len() >= 1,
        0 <= i < k && nfc(names[i]) == nfc(requested) && (forall|x: int|
            0 <= x < k && x != i ==> nfc(#[trigger] names[x]) != nfc(requested)) ==> same_key(
            names,
            k,
            requested,
        ) == seq![names[i]],
        0 <= i < j < k && nfc(names[i]) == nfc(requested) && nfc(names[j]) == nfc(requested)
            ==> same_key(names, k, requested).len() >= 2,
    decreases k,
{
    if k > 0 {
        lemma_same_key_count(names, (k - 1) as nat, requested, i, j);
        if 0 <= i == k - 1 && (forall|x: int|
            0 <= x < k && x != i ==> nfc(#[trigger] names[x]) != nfc(requested)) {
            assert(same_key(names, (k - 1) as nat, requested).len() == 0);
            assert(same_key(names, (k - 1) as nat, requested) =~= Seq::<Seq<char>>::empty());
        }
    }
}

/// A name that is in a directory is found as it is. One that is not is found under the one name
/// in the directory that means the same; where there is none it is missing, and where there are
/// several the request is refused.
pub proof fn law_spelling_of_names(
    names: Seq<Seq<char>>,
    requested: Seq<char>,
    original: Seq<char>,
    i: int,
    j: int,
)
    requires
        !names.contains(requested),
    ensures
        (forall|x: int| 0 <= x < names.len() ==> nfc(#[trigger] names[x]) != nfc(requested))
            ==> spelled(names, requested, original) == Ok::<Option<Seq<char>>, ErrorView>(None),
        0 <= i < names.len() && nfc(names[i]) == nfc(requested) && (forall|x: int|
            0 <= x < names.len() && x != i ==> nfc(#[trigger] names[x]) != nfc(requested))
            ==> spelled(names, requested, original) == Ok::<Option<Seq<char>>, ErrorView>(
            Some(names[i]),
        ),
        0 <= i < j < names.len() && nfc(names[i]) == nfc(requested) && nfc(names[j]) == nfc(
            requested,
        ) ==> (spelled(names, requested, original) matches Err(ErrorView::InvalidPath(_))),
{
    lemma_same_key_count(names, names.len(), requested, i, j);
}

/// Whether the directories that were read hold each name of a path as it is, and lie in the
/// vault, as far as they are counted.
pub open spec fn are_there(names: Seq<Seq<char>>, seen: Seq<Reading>, k: int) -> bool {
    &&& k < seen.len()
    &&& forall|i: int|
        0 <= i < k ==> ((#[trigger] seen[i]).listing@ matches ListingView::Names(here)
            && here.contains(names[i]))
    &&& forall|i: int| 0 < i < k ==> (#[trigger] seen[i]).inside
}

proof fn lemma_walk_exact(
    names: Seq<Seq<char>>,
    seen: Seq<Reading>,
    original: Seq<char>,
    found: Seq<Seq<char>>,
    k: int,
)
    requires
        0 <= found.len() <= k <= names.len(),
        found == names.take(found.len() as int),
        are_there(names, seen, k),
    ensures
        walk(names, found, seen, original) == walk(names, names.take(k), seen, original),
    decreases k - found.len(),
{
    if found.len() < k {
        let i = found.len() as int;
        assert(seen[i].listing@ matches ListingView::Names(here) && here.contains(names[i]));
        assert(found.push(names[i]) =~= names.take(i + 1));
        lemma_walk_exact(names, seen, original, found.push(names[i]), k);
    }
}

/// A path whose names are all there, each in its directory and all of them in the vault, is the
/// path itself. If one of its directories leads out of the vault the path is refused, and if a
/// name is in no directory there is no such note.
pub proof fn law_existing_path(
    root: Seq<char>,
    relative: Seq<char>,
    seen: Seq<Reading>,
    n: Seq<char>,
    k: int,
)
    requires
        normalized(relative) == Ok::<Seq<char>, ErrorView>(n),
        n.len() > 0,
        0 <= k <= components(n).len(),
        are_there(components(n), seen, k),
    ensures
        k == components(n).len() && seen[k].inside ==> existing(root, relative, seen) == Ok::<
            StepView,
            ErrorView,
        >(StepView::Done { relative: n, absolute: place(root, components(n)) }),
        k > 0 && !seen[k].inside ==> existing(root, relative, seen) == Err::<StepView, ErrorView>(
            ErrorView::OutsideVault(relative),
        ),
        k < components(n).len() && (k == 0 || seen[k].inside) && (seen[k].listing@ is Missing || (
        seen[k].listing@ matches ListingView::Names(here) && forall|i: int|
            0 <= i < here.len() ==> nfc(#[trigger] here[i]) != nfc(components(n)[k]))) ==> existing(
            root,
            relative,
            seen,
        ) == Err::<StepView, ErrorView>(ErrorView::NoteNotFound(relative)),
        k < components(n).len() && (k == 0 || seen[k].inside) ==> (seen[k].listing@ matches
            ListingView::Failed(m) ==> existing(root, relative, seen) == Err::<StepView, ErrorView>(
            ErrorView::Io(m),
        )),
{
    law_normalized_path_stays_in_the_vault(relative);
    let names = components(n);
    assert(path_names(n) == names);
    lemma_names_of_normalized(relative, n);
    let none = Seq::<Seq<char>>::empty();
    assert(none =~= names.take(0));
    lemma_walk_exact(names, seen, relative, none, k);
    let at = names.take(k);
    assert(at.len() == k);
    if k == names.len() {
        assert(at =~= names);
    } else if let ListingView::Names(here) = seen[k].listing@ {
        if forall|i: int| 0 <= i < here.len() ==> nfc(#[trigger] here[i]) != nfc(names[k]) {
            if here.contains(names[k]) {
                let i = choose|i: int| 0 <= i < here.len() && here[i] == names[k];
                assert(nfc(here[i]) != nfc(names[k]));
            }
            law_spelling_of_names(here, names[k], relative, 0, 0);
        }
    }
}

proof fn lemma_names_of_normalized(relative: Seq<char>, n: Seq<char>)
    requires
        normalized(relative) == Ok::<Seq<char>, ErrorView>(n),
        n.len() > 0,
    ensures
        components(n).len() > 0,
        text::join(components(n), seq!['/']) == n,
        forward_slashes(n) == n,
{
    law_normalized_path_stays_in_the_vault(relative);
    assert(tidy(n) == n);
    assert(Seq::<char>::empty() + text::join(components(n), seq!['/']) =~= text::join(
        components(n),
        seq!['/'],
    ));
    if components(n).len() == 0 {
        assert(text::join(components(n), seq!['/']).len() == 0);
    }
    assert forall|i: int| 0 <= i < n.len() implies forward_slashes(n)[i] == n[i] by {
        assert(n.contains(n[i]));
    }
    assert(forward_slashes(n) =~= n);
}

/// A path that names something is written where that is. One that names nothing yet is written
/// under its own names, unless that would be outside the vault; all other answers are those that
/// reading it gives.
pub proof fn law_path_to_write(root: Seq<char>, relative: Seq<char>, seen: Seq<Reading>, n: Seq<char>)
    ensures
        existing(root, relative, seen) is Ok ==> forall|inside: Option<bool>| #[trigger]
            for_write(root, relative, seen, inside) == existing(root, relative, seen),
        existing(root, relative, seen) matches Err(e) && e !is NoteNotFound ==> forall|
            inside: Option<bool>,
        | #[trigger]
            for_write(root, relative, seen, inside) == existing(root, relative, seen),
        existing(root, relative, seen) == Err::<StepView, ErrorView>(
            ErrorView::NoteNotFound(relative),
        ) ==> {
            &&& for_write(root, relative, seen, None) matches Ok(StepView::LookParent(_))
            &&& for_write(root, relative, seen, Some(true)) matches Ok(StepView::Done { .. })
            &&& for_write(root, relative, seen, Some(false)) == Err::<StepView, ErrorView>(
                ErrorView::OutsideVault(relative),
            )
        },
        normalized(relative) == Ok::<Seq<char>, ErrorView>(n) && n.len() > 0 && seen.len() > 0
            && seen[0].listing@ is Missing ==> for_write(root, relative, seen, Some(true)) == Ok::<
            StepView,
            ErrorView,
        >(StepView::Done { relative: n, absolute: place(root, components(n)) }),
{
    if let Ok(m) = normalized(relative) {
        let names = path_names(m);
        lemma_walk_errors(names, Seq::empty(), seen, relative);
        if m.len() > 0 && seen.len() > 0 && seen[0].listing@ is Missing {
            law_normalized_path_stays_in_the_vault(relative);
            lemma_names_of_normalized(relative, m);
            let none = Seq::<Seq<char>>::empty();
            assert(walk_path(names, seen, relative) == Walk::Missing(none));
            assert(none + names.skip(0) =~= names);
        }
    }
}

proof fn lemma_walk_errors(
    names: Seq<Seq<char>>,
    found: Seq<Seq<char>>,
    seen: Seq<Reading>,
    original: Seq<char>,
)
    requires
        found.len() <= names.len(),
    ensures
        walk(names, found, seen, original) matches Walk::Failed(e) ==> e !is NoteNotFound,
    decreases names.len() - found.len(),
{
    let i = found.len() as int;
    if i < seen.len() && i < names.len() {
        if let ListingView::Names(here) = seen[i].listing@ {
            if let Ok(Some(name)) = spelled(here, names[i], original) {
                lemma_walk_errors(names, found.push(name), seen, original);
            }
        }
    }
}

/// What lies below the root has the names of the root and then its own.
pub proof fn law_components_below_root(root: Seq<char>, names: Seq<Seq<char>>)
    requires
        root.len() > 0,
        names.len() > 0,
        all_names(names),
    ensures
        components(root + seq!['/'] + text::join(names, seq!['/'])) == components(root) + names,
    decreases names.len(),
{
    let sep = seq!['/'];
    let d = names.drop_last();
    let name = names.last();
    assert(name == names[names.len() - 1]);
    assert(names =~= d.push(name));
    text::law_join_step(d, name, sep);
    if d.len() > 0 {
        assert(all_names(d)) by {
            assert forall|i: int| 0 <= i < d.len() implies (#[trigger] d[i]).len() > 0 && d[i]
                != seq!['.'] && d[i] != seq!['.', '.'] && !d[i].contains('/') by {
                assert(d[i] == names[i]);
            }
        }
        law_components_below_root(root, d);
        let q = root + sep + text::join(d, sep);
        lemma_last_component(q, name);
        assert(root + sep + (text::join(d, sep) + sep + name) =~= q + sep + name);
        assert((components(root) + d).push(name) =~= components(root) + names);
    } else {
        lemma_last_component(root, name);
        assert(components(root).push(name) =~= components(root) + names);
    }
}

/// Whether the directories that were read hold the names of a path under the given spellings, and
/// lie in the vault, as far as they are counted.
pub open spec fn are_spelled(
    names: Seq<Seq<char>>,
    disk: Seq<Seq<char>>,
    seen: Seq<Reading>,
    original: Seq<char>,
) -> bool {
    &&& disk.len() < seen.len()
    &&& disk.len() <= names.len()
    &&& forall|i: int|
        0 <= i < disk.len() ==> ((#[trigger] seen[i]).listing@ matches ListingView::Names(here)
            && spelled(here, names[i], original) == Ok::<Option<Seq<char>>, ErrorView>(
            Some(disk[i]),
        ))
    &&& forall|i: int| 0 < i < disk.len() ==> (#[trigger] seen[i]).inside
}

proof fn lemma_walk_spelled(
    names: Seq<Seq<char>>,
    disk: Seq<Seq<char>>,
    seen: Seq<Reading>,
    original: Seq<char>,
    k: int,
)
    requires
        0 <= k <= disk.len(),
        are_spelled(names, disk, seen, original),
    ensures
        walk(names, disk.take(k), seen, original) == walk(names, disk, seen, original),
    decreases disk.len() - k,
{
    if k < disk.len() {
        assert(seen[k].listing@ is Names);
        assert(disk.take(k).push(disk[k]) =~= disk.take(k + 1));
        lemma_walk_spelled(names, disk, seen, original, k + 1);
    } else {
        assert(disk.take(k) =~= disk);
    }
}

/// A path to write keeps the spelling of the directories that are there already, and takes the
/// rest of its names as they were given; a path to read has the spelling that is there in all of
/// its names.
pub proof fn law_spelling_on_disk(
    root: Seq<char>,
    relative: Seq<char>,
    seen: Seq<Reading>,
    n: Seq<char>,
    disk: Seq<Seq<char>>,
)
    requires
        normalized(relative) == Ok::<Seq<char>, ErrorView>(n),
        n.len() > 0,
        are_spelled(components(n), disk, seen, relative),
        disk.len() > 0 ==> seen[disk.len() as int].inside,
    ensures
        ({
            let k = disk.len() as int;
            let names = disk + components(n).skip(k);
            &&& k == components(n).len() ==> existing(root, relative, seen) == Ok::<
                StepView,
                ErrorView,
            >(
                StepView::Done {
                    relative: forward_slashes(text::join(disk, seq!['/'])),
                    absolute: place(root, disk),
                },
            )
            &&& k < components(n).len() && seen[k].listing@ is Missing ==> for_write(
                root,
                relative,
                seen,
                Some(true),
            ) == Ok::<StepView, ErrorView>(
                StepView::Done {
                    relative: forward_slashes(text::join(names, seq!['/'])),
                    absolute: place(root, names),
                },
            ) && for_write(root, relative, seen, None) == Ok::<StepView, ErrorView>(
                StepView::LookParent(place(root, names)),
            )
            &&& disk.len() > 0 ==> existing(root, relative, seen.take(k)) == Ok::<
                StepView,
                ErrorView,
            >(StepView::Look(place(root, disk)))
        }),
{
    law_normalized_path_stays_in_the_vault(relative);
    lemma_names_of_normalized(relative, n);
    let names = components(n);
    let none = Seq::<Seq<char>>::empty();
    let k = disk.len() as int;
    assert(none =~= disk.take(0));
    lemma_walk_spelled(names, disk, seen, relative, 0);
    if k > 0 {
        let less = seen.take(k);
        lemma_walk_unread(names, disk, seen, relative, 0);
        assert(walk(names, disk, less, relative) == Walk::Unread(disk));
    }
}

proof fn lemma_walk_unread(
    names: Seq<Seq<char>>,
    disk: Seq<Seq<char>>,
    seen: Seq<Reading>,
    original: Seq<char>,
    k: int,
)
    requires
        0 <= k <= disk.len(),
        are_spelled(names, disk, seen, original),
    ensures
        walk(names, disk.take(k), seen.take(disk.len() as int), original) == walk(
            names,
            disk,
            seen.take(disk.len() as int),
            original,
        ),
    decreases disk.len() - k,
{
    let less = seen.take(disk.len() as int);
    if k < disk.len() {
        assert(less[k] == seen[k]);
        assert(seen[k].listing@ is Names);
        assert(disk.take(k).push(disk[k]) =~= disk.take(k + 1));
        lemma_walk_unread(names, disk, seen, original, k + 1);
    } else {
        assert(disk.take(k) =~= disk);
    }
}

} // verus!
