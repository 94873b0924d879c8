//! Resolution of wikilinks to notes.
use crate::path;
use crate::text;
use vstd::hash_map::StringHashMap;
use vstd::prelude::*;

verus! {

/// Resolves wikilink targets to file paths using Obsidian's shortest-unique-path algorithm.
///
/// - `by_stem`: composed, lowercased filename stem -> all matching vault-relative paths
/// - `by_path`: composed, lowercased vault-relative path (sans `.md`) -> canonical path
///
/// Paths are kept in their tidy form, so that all spellings of a path are the same path.
pub struct LinkResolver {
    by_stem: StringHashMap<Vec<String>>,
    by_path: StringHashMap<String>,
}

/// What a [`LinkResolver`] knows.
#[verifier::ext_equal]
pub struct ResolverView {
    pub by_stem: Map<Seq<char>, Seq<Seq<char>>>,
    pub by_path: Map<Seq<char>, Seq<char>>,
}

impl View for LinkResolver {
    type V = ResolverView;

    closed spec fn view(&self) -> ResolverView {
        ResolverView {
            by_stem: self.by_stem@.map_values(|v: Vec<String>| text::strings(v@)),
            by_path: self.by_path@.map_values(|s: String| s@),
        }
    }
}

/// A text without `.md`, in any letter case, at its end.
pub open spec fn without_md(s: Seq<char>) -> Seq<char> {
    if s.len() >= 3 && text::eq_ignore_ascii_case(s.skip(s.len() - 3), seq!['.', 'm', 'd']) {
        s.take(s.len() - 3)
    } else {
        s
    }
}

/// The form in which a text is looked up: without `.md`, in composed form, in small letters.
pub open spec fn target_key(s: Seq<char>) -> Seq<char> {
    text::lower(path::nfc(without_md(s)))
}

/// The key of a path, with `/` as separator.
pub open spec fn lookup_key(target: Seq<char>) -> Seq<char> {
    target_key(path::forward_slashes(target))
}

/// The key of the file name of a path.
pub open spec fn name_key(p: Seq<char>) -> Seq<char> {
    target_key(path::file_name(p))
}

/// The form in which an ASCII text is looked up.
pub open spec fn ascii_key(s: Seq<char>) -> Seq<char> {
    text::ascii_lowered(without_md(s))
}

/// Whether the keys of a path are just its small letters without `.md`, as they are for every
/// ASCII path.
pub open spec fn has_ascii_keys(p: Seq<char>) -> bool {
    &&& lookup_key(p) == ascii_key(path::forward_slashes(p))
    &&& name_key(p) == ascii_key(path::file_name(p))
}

/// Whether a target names nothing: it is empty but for `.md`.
pub open spec fn is_nameless(target: Seq<char>) -> bool {
    without_md(target).len() == 0
}

/// Whether a target is a path rather than a name.
pub open spec fn has_separator(target: Seq<char>) -> bool {
    target.contains('/') || target.contains('\\')
}

/// The only one of some paths.
pub open spec fn only(paths: Seq<Seq<char>>) -> Option<Seq<char>> {
    if paths.len() == 1 {
        Some(paths[0])
    } else {
        None
    }
}

/// The paths at a key, none if the key is unknown.
pub open spec fn paths_at(m: Map<Seq<char>, Seq<Seq<char>>>, key: Seq<char>) -> Seq<Seq<char>> {
    if m.contains_key(key) {
        m[key]
    } else {
        Seq::empty()
    }
}

/// The paths of a list other than `p`.
pub open spec fn others(list: Seq<Seq<char>>, p: Seq<char>) -> Seq<Seq<char>>
    decreases list.len(),
{
    if list.len() == 0 {
        Seq::empty()
    } else if list.last() == p {
        others(list.drop_last(), p)
    } else {
        others(list.drop_last(), p).push(list.last())
    }
}

impl ResolverView {
    /// Knows no path.
    pub open spec fn empty() -> ResolverView {
        ResolverView { by_stem: Map::empty(), by_path: Map::empty() }
    }

    /// With one more path, in its tidy form: under its own key, where it takes the place of
    /// another path, and at the end of the paths with its name.
    pub open spec fn with_path(self, p: Seq<char>) -> ResolverView {
        ResolverView {
            by_stem: self.by_stem.insert(
                name_key(p),
                paths_at(self.by_stem, name_key(p)).push(path::tidy(p)),
            ),
            by_path: self.by_path.insert(lookup_key(p), path::tidy(p)),
        }
    }

    /// Without a path: its own key is unknown, and so is its name if no other path has it.
    pub open spec fn without_path(self, p: Seq<char>) -> ResolverView {
        let left = others(paths_at(self.by_stem, name_key(p)), path::tidy(p));
        ResolverView {
            by_stem: if left.len() == 0 {
                self.by_stem.remove(name_key(p))
            } else {
                self.by_stem.insert(name_key(p), left)
            },
            by_path: self.by_path.remove(lookup_key(p)),
        }
    }

    /// Knows paths that were added in this order.
    pub open spec fn of_paths(paths: Seq<Seq<char>>) -> ResolverView
        decreases paths.len(),
    {
        if paths.len() == 0 {
            ResolverView::empty()
        } else {
            ResolverView::of_paths(paths.drop_last()).with_path(paths.last())
        }
    }

    /// The paths that a target can mean, given its two keys: with a separator in it, the path
    /// that it is; without, all paths with this name.
    pub open spec fn candidates_at(
        self,
        target: Seq<char>,
        path_key: Seq<char>,
        name_key: Seq<char>,
    ) -> Seq<Seq<char>> {
        if is_nameless(target) {
            Seq::empty()
        } else if has_separator(target) {
            if self.by_path.contains_key(path_key) {
                seq![self.by_path[path_key]]
            } else {
                Seq::empty()
            }
        } else {
            paths_at(self.by_stem, name_key)
        }
    }

    /// The paths that a target can mean.
    pub open spec fn candidates(self, target: Seq<char>) -> Seq<Seq<char>> {
        self.candidates_at(target, lookup_key(target), target_key(target))
    }

    /// The paths that an ASCII target can mean.
    pub open spec fn ascii_candidates(self, target: Seq<char>) -> Seq<Seq<char>> {
        self.candidates_at(target, ascii_key(path::forward_slashes(target)), ascii_key(target))
    }

    /// The path that a target means: its only candidate.
    pub open spec fn resolved(self, target: Seq<char>) -> Option<Seq<char>> {
        only(self.candidates(target))
    }
}

/// Builds a [`LinkResolver`] from vault-relative note paths.
pub fn build_link_resolver(note_paths: &Vec<String>) -> (r: LinkResolver)
    ensures
        r@ == ResolverView::of_paths(text::strings(note_paths@)),
        forall|i: int|
            0 <= i < note_paths@.len() && text::is_ascii(#[trigger] note_paths@[i]@)
                ==> has_ascii_keys(note_paths@[i]@),
{
    let mut r = LinkResolver { by_stem: StringHashMap::new(), by_path: StringHashMap::new() };
    let ghost ps = text::strings(note_paths@);
    assert(r@ =~= ResolverView::empty());
    let mut k: usize = 0;
    while k < note_paths.len()
        invariant
            k <= note_paths.len(),
            ps == text::strings(note_paths@),
            r@ == ResolverView::of_paths(ps.take(k as int)),
            forall|i: int|
                0 <= i < k && text::is_ascii(#[trigger] note_paths@[i]@) ==> has_ascii_keys(
                    note_paths@[i]@,
                ),
        decreases note_paths.len() - k,
    {
        r.insert(&note_paths[k]);
        k = k + 1;
        assert(ps.take(k as int).drop_last() =~= ps.take(k as int - 1));
        assert(ps.take(k as int).last() == note_paths@[k as int - 1]@);
    }
    assert(ps.take(k as int) =~= ps);
    r
}

/// Strips `.md`, in any letter case, from the end of a text.
fn strip_md(chars: &[char]) -> (r: &[char])
    ensures
        r@ == without_md(chars@),
{
    let md: [char; 3] = ['.', 'm', 'd'];
    assert(md@ == seq!['.', 'm', 'd']);
    let n = chars.len();
    if n >= 3 {
        let end = vstd::slice::slice_subrange(chars, n - 3, n);
        assert(end@ == chars@.skip(n - 3));
        if text::same_ignore_ascii_case(end, &md) {
            let stripped = vstd::slice::slice_subrange(chars, 0, n - 3);
            assert(stripped@ == chars@.take(n - 3));
            return stripped;
        }
    }
    chars
}

/// Computes [`target_key`].
fn key_of(chars: &[char]) -> (r: String)
    ensures
        r@ == target_key(chars@),
        text::is_ascii(chars@) ==> r@ == ascii_key(chars@),
{
    let stripped = strip_md(chars);
    let composed = path::canonical_unicode_key(&text::from_chars(stripped));
    text::lowercase(&composed)
}

/// Copies strings.
pub fn copy_strings(v: &Vec<String>) -> (r: Vec<String>)
    ensures
        text::strings(r@) == text::strings(v@),
        r@ == v@,
{
    let mut r: Vec<String> = Vec::new();
    let mut i: usize = 0;
    while i < v.len()
        invariant
            i <= v.len(),
            r@ == v@.take(i as int),
        decreases v.len() - i,
    {
        r.push(v[i].clone());
        i = i + 1;
        assert(v@.take(i as int) =~= v@.take(i as int - 1).push(v@[i as int - 1]));
    }
    assert(v@.take(i as int) =~= v@);
    r
}

impl LinkResolver {
    /// The path-based lookup key of a target or a vault-relative path.
    fn path_key(p: &str) -> (r: String)
        ensures
            r@ == lookup_key(p@),
            text::is_ascii(p@) ==> r@ == ascii_key(path::forward_slashes(p@)),
    {
        let chars = text::to_chars(p);
        key_of(&path::with_forward_slashes(&chars))
    }

    /// The stem-based lookup key of a vault-relative path.
    fn stem_key(p: &str) -> (r: String)
        ensures
            r@ == name_key(p@),
            text::is_ascii(p@) ==> r@ == ascii_key(path::file_name(p@)),
    {
        proof {
            if text::is_ascii(p@) {
                path::lemma_ascii_file_name(p@);
            }
        }
        key_of(&path::name_of(p))
    }

    /// The lookup key of a target that is a name.
    fn target_name_key(target: &str) -> (r: String)
        ensures
            r@ == target_key(target@),
            text::is_ascii(target@) ==> r@ == ascii_key(target@),
    {
        key_of(&text::to_chars(target))
    }

    /// Adds a path under its two keys.
    fn insert(&mut self, p: &str)
        ensures
            final(self)@ == old(self)@.with_path(p@),
            text::is_ascii(p@) ==> has_ascii_keys(p@),
    {
        let stem = Self::stem_key(p);
        let key = Self::path_key(p);
        let tidy = path::tidied(p);
        let ghost before = self@;
        let mut list = match self.by_stem.get(&stem) {
            Some(v) => copy_strings(v),
            None => Vec::new(),
        };
        assert(text::strings(list@) =~= paths_at(before.by_stem, stem@));
        let ghost list_before = list@;
        list.push(tidy.clone());
        assert(text::strings(list@) =~= text::strings(list_before).push(tidy@));
        self.by_stem.insert(stem, list);
        self.by_path.insert(key, tidy);
        assert(self@.by_stem =~= before.with_path(p@).by_stem);
        assert(self@.by_path =~= before.with_path(p@).by_path);
    }

    /// Registers a new file path in the resolver.
    pub fn add_path(&mut self, p: String)
        ensures
            final(self)@ == old(self)@.with_path(p@),
            text::is_ascii(p@) ==> has_ascii_keys(p@),
    {
        self.insert(&p);
    }

    /// Removes a file path from the resolver.
    pub fn remove_path(&mut self, p: &str)
        ensures
            final(self)@ == old(self)@.without_path(p@),
    {
        let stem = Self::stem_key(p);
        let key = Self::path_key(p);
        let tidy = path::tidied(p);
        let ghost before = self@;
        self.by_path.remove(&key);
        let mut left: Vec<String> = Vec::new();
        let mut known: bool = false;
        if let Some(list) = self.by_stem.get(&stem) {
            known = true;
            let ghost all = text::strings(list@);
            let mut k: usize = 0;
            while k < list.len()
                invariant
                    k <= list.len(),
                    all == text::strings(list@),
                    text::strings(left@) == others(all.take(k as int), path::tidy(p@)),
                    tidy@ == path::tidy(p@),
                decreases list.len() - k,
            {
                let ghost before_left = left@;
                assert(all.take(k as int + 1).drop_last() =~= all.take(k as int));
                assert(all.take(k as int + 1).last() == list@[k as int]@);
                if !text::same_str(&list[k], &tidy) {
                    left.push(list[k].clone());
                    assert(text::strings(left@) =~= text::strings(before_left).push(
                        list@[k as int]@,
                    ));
                }
                k = k + 1;
            }
            assert(all.take(k as int) =~= all);
            assert(all == paths_at(before.by_stem, stem@));
        }
        assert(!known ==> paths_at(before.by_stem, stem@) =~= Seq::<Seq<char>>::empty());
        assert(text::strings(left@) =~= others(paths_at(before.by_stem, stem@), tidy@));
        assert(text::strings(left@).len() == left@.len());
        if left.len() == 0 {
            self.by_stem.remove(&stem);
        } else {
            self.by_stem.insert(stem, left);
        }
        assert(self@.by_stem =~= before.without_path(p@).by_stem);
        assert(self@.by_path =~= before.without_path(p@).by_path);
    }

    /// Moves a path from `old_path` to `new_path`.
    pub fn rename_path(&mut self, old_path: &str, new_path: String)
        ensures
            final(self)@ == old(self)@.without_path(old_path@).with_path(new_path@),
            text::is_ascii(new_path@) ==> has_ascii_keys(new_path@),
    {
        self.remove_path(old_path);
        self.insert(&new_path);
    }

    /// Returns all candidate paths for a target (useful when ambiguous).
    pub fn resolve_candidates(&self, target: &str) -> (r: Vec<String>)
        ensures
            text::strings(r@) == self@.candidates(target@),
            text::is_ascii(target@) ==> text::strings(r@) == self@.ascii_candidates(target@),
    {
        let chars = text::to_chars(target);
        let path_key = Self::path_key(target);
        let name_key = Self::target_name_key(target);
        let mut r: Vec<String> = Vec::new();
        assert(text::strings(r@) =~= Seq::<Seq<char>>::empty());
        if strip_md(&chars).len() == 0 {
            return r;
        }
        if text::has_char(&chars, '/') || text::has_char(&chars, '\\') {
            if let Some(p) = self.by_path.get(&path_key) {
                r.push(p.clone());
                assert(text::strings(r@) =~= seq![p@]);
            }
            r
        } else {
            match self.by_stem.get(&name_key) {
                Some(v) => copy_strings(v),
                None => r,
            }
        }
    }

    /// Resolves a wikilink target to a file path.
    ///
    /// A target with a `/` is a path (`.md` optional); any other target is a filename stem that
    /// must be unique in the vault. Letter case and the Unicode normalization form do not matter.
    pub fn resolve(&self, target: &str) -> (r: Option<String>)
        ensures
            match r {
                Some(p) => self@.resolved(target@) == Some(p@),
                None => self@.resolved(target@) is None,
            },
            text::is_ascii(target@) ==> self@.resolved(target@) == only(
                self@.ascii_candidates(target@),
            ),
    {
        let all = self.resolve_candidates(target);
        assert(text::strings(all@).len() == all@.len());
        if all.len() == 1 {
            assert(text::strings(all@)[0] == all@[0]@);
            Some(all[0].clone())
        } else {
            None
        }
    }

    /// Checks if a wikilink target resolves to any existing note.
    pub fn is_resolved(&self, target: &str) -> (r: bool)
        ensures
            r == self@.resolved(target@) is Some,
            text::is_ascii(target@) ==> r == only(self@.ascii_candidates(target@)) is Some,
    {
        self.resolve(target).is_some()
    }
}

// ---------------------------------------------------------------------------
// Laws
// ---------------------------------------------------------------------------

impl ResolverView {
    /// Every path stands under its own keys, and no name is kept without a path.
    pub open spec fn consistent(self) -> bool {
        &&& forall|k: Seq<char>| #[trigger]
            self.by_path.contains_key(k) ==> lookup_key(self.by_path[k]) == k
        &&& forall|k: Seq<char>| #[trigger]
            self.by_stem.contains_key(k) ==> self.by_stem[k].len() > 0
        &&& forall|k: Seq<char>, i: int|
            self.by_stem.contains_key(k) && 0 <= i < self.by_stem[k].len() ==> name_key(
                #[trigger] self.by_stem[k][i],
            ) == k
    }
}

/// Adding and removing paths keeps every path under its own keys.
pub proof fn law_resolver_stays_consistent(v: ResolverView, p: Seq<char>)
    requires
        v.consistent(),
    ensures
        ResolverView::empty().consistent(),
        path::is_tidy(p) ==> v.with_path(p).consistent(),
        v.without_path(p).consistent(),
{
    let w = v.with_path(p);
    let n = name_key(p);
    if path::is_tidy(p) {
        assert forall|k: Seq<char>, i: int|
            w.by_stem.contains_key(k) && 0 <= i < w.by_stem[k].len() implies name_key(
            #[trigger] w.by_stem[k][i],
        ) == k by {
            if k == n {
                if i < paths_at(v.by_stem, n).len() {
                    assert(w.by_stem[k][i] == v.by_stem[k][i]);
                }
            } else {
                assert(w.by_stem[k] == v.by_stem[k]);
            }
        }
    }
    let u = v.without_path(p);
    let all = paths_at(v.by_stem, n);
    assert forall|k: Seq<char>, i: int|
        u.by_stem.contains_key(k) && 0 <= i < u.by_stem[k].len() implies name_key(
        #[trigger] u.by_stem[k][i],
    ) == k by {
        if k == n {
            lemma_others(all, path::tidy(p), i);
        } else {
            assert(u.by_stem[k] == v.by_stem[k]);
        }
    }
}

proof fn lemma_others(s: Seq<Seq<char>>, p: Seq<char>, i: int)
    requires
        0 <= i < others(s, p).len(),
    ensures
        others(s, p)[i] != p,
        exists|j: int| 0 <= j < s.len() && #[trigger] s[j] == others(s, p)[i],
    decreases s.len(),
{
    if s.len() > 0 {
        let d = s.drop_last();
        if i < others(d, p).len() {
            lemma_others(d, p, i);
            let j = choose|j: int| 0 <= j < d.len() && #[trigger] d[j] == others(d, p)[i];
            assert(s[j] == others(s, p)[i]);
        } else {
            assert(s[s.len() - 1] == others(s, p)[i]);
        }
    }
}

/// A resolver that was built from tidy paths keeps every path under its own keys.
pub proof fn law_built_resolver_is_consistent(paths: Seq<Seq<char>>)
    requires
        forall|i: int| 0 <= i < paths.len() ==> path::is_tidy(#[trigger] paths[i]),
    ensures
        ResolverView::of_paths(paths).consistent(),
    decreases paths.len(),
{
    if paths.len() > 0 {
        let less = paths.drop_last();
        assert forall|i: int| 0 <= i < less.len() implies path::is_tidy(#[trigger] less[i]) by {
            assert(less[i] == paths[i]);
        }
        law_built_resolver_is_consistent(less);
        law_resolver_stays_consistent(ResolverView::of_paths(less), paths.last());
    }
}

/// The paths with a given key of their name, in their tidy forms.
pub open spec fn named(paths: Seq<Seq<char>>, key: Seq<char>) -> Seq<Seq<char>>
    decreases paths.len(),
{
    if paths.len() == 0 {
        Seq::empty()
    } else {
        let less = named(paths.drop_last(), key);
        if name_key(paths.last()) == key {
            less.push(path::tidy(paths.last()))
        } else {
            less
        }
    }
}

/// A resolver that was built from paths answers a name with the paths of that name, in the order
/// in which they were given: with one such path the name means it, with none or with several it
/// means nothing. It answers a path that it was given with that path, if no two of them have the
/// same key.
pub proof fn law_built_resolver_answers(paths: Seq<Seq<char>>, target: Seq<char>)
    requires
        !is_nameless(target),
    ensures
        !has_separator(target) ==> ResolverView::of_paths(paths).candidates(target) == named(
            paths,
            target_key(target),
        ),
        !has_separator(target) ==> (ResolverView::of_paths(paths).resolved(target) is Some <==> (
        exists|i: int| #[trigger]
            is_only_with_name(paths, i, target_key(target)))),
        forall|i: int|
            !has_separator(target) && #[trigger] is_only_with_name(paths, i, target_key(target))
                ==> ResolverView::of_paths(paths).resolved(target) == Some(path::tidy(paths[i])),
        forall|i: int|
            0 <= i < paths.len() && has_separator(target) && lookup_key(#[trigger] paths[i])
                == lookup_key(target) && (forall|j: int|
                0 <= j < paths.len() && j != i ==> lookup_key(#[trigger] paths[j]) != lookup_key(
                    paths[i],
                )) ==> ResolverView::of_paths(paths).resolved(target) == Some(
                path::tidy(paths[i]),
            ),
{
    let v = ResolverView::of_paths(paths);
    let key = target_key(target);
    lemma_built_names(paths, key);
    if v.resolved(target) is Some && !has_separator(target) {
        assert(named(paths, key).len() == 1);
        let i = choose|i: int| is_only_with_name(paths, i, key);
        assert(is_only_with_name(paths, i, key));
    }
    assert forall|i: int|
        0 <= i < paths.len() && has_separator(target) && lookup_key(#[trigger] paths[i])
            == lookup_key(target) && (forall|j: int|
            0 <= j < paths.len() && j != i ==> lookup_key(#[trigger] paths[j]) != lookup_key(
                paths[i],
            )) implies v.resolved(target) == Some(path::tidy(paths[i])) by {
        lemma_built_path(paths, i);
    }
}

/// Whether a path is the only one of some paths with a given key of its name.
pub open spec fn is_only_with_name(paths: Seq<Seq<char>>, i: int, key: Seq<char>) -> bool {
    &&& 0 <= i < paths.len()
    &&& name_key(paths[i]) == key
    &&& forall|j: int| 0 <= j < paths.len() && j != i ==> name_key(#[trigger] paths[j]) != key
}

proof fn lemma_built_names(paths: Seq<Seq<char>>, key: Seq<char>)
    ensures
        paths_at(ResolverView::of_paths(paths).by_stem, key) == named(paths, key),
        named(paths, key).len() == 0 <==> (forall|j: int|
            0 <= j < paths.len() ==> name_key(#[trigger] paths[j]) != key),
        named(paths, key).len() == 1 <==> exists|i: int| #[trigger]
            is_only_with_name(paths, i, key),
        forall|i: int| #[trigger]
            is_only_with_name(paths, i, key) ==> named(paths, key) == seq![path::tidy(paths[i])],
    decreases paths.len(),
{
    if paths.len() > 0 {
        let less = paths.drop_last();
        let n = less.len() as int;
        lemma_built_names(less, key);
        let before = ResolverView::of_paths(less);
        assert(paths_at(ResolverView::of_paths(paths).by_stem, key) =~= named(paths, key));
        assert(forall|j: int| 0 <= j < n ==> #[trigger] less[j] == paths[j]);
        if name_key(paths[n]) == key {
            if named(less, key).len() == 0 {
                assert forall|j: int| 0 <= j < paths.len() && j != n implies name_key(
                    #[trigger] paths[j],
                ) != key by {
                    assert(less[j] == paths[j]);
                }
                assert(is_only_with_name(paths, n, key));
            } else {
                let j = choose|j: int| 0 <= j < n && name_key(#[trigger] less[j]) == key;
                assert(name_key(paths[j]) == key);
                assert forall|i: int| !is_only_with_name(paths, i, key) by {
                    if is_only_with_name(paths, i, key) {
                        assert(name_key(paths[n]) == key && name_key(paths[j]) == key);
                    }
                }
            }
            assert forall|i: int| #[trigger] is_only_with_name(paths, i, key) implies i == n by {
                assert(name_key(paths[n]) == key);
            }
            assert(named(less, key).len() == 0 ==> named(paths, key) =~= seq![
                path::tidy(paths[n]),
            ]);
        } else {
            assert forall|i: int| #[trigger]
                is_only_with_name(paths, i, key) <==> is_only_with_name(less, i, key) by {
                if is_only_with_name(paths, i, key) {
                    assert(paths[i] == less[i]);
                    assert forall|j: int| 0 <= j < n && j != i implies name_key(#[trigger] less[j])
                        != key by {
                        assert(less[j] == paths[j]);
                    }
                }
                if is_only_with_name(less, i, key) {
                    assert(paths[i] == less[i]);
                    assert forall|j: int| 0 <= j < paths.len() && j != i implies name_key(
                        #[trigger] paths[j],
                    ) != key by {
                        if j < n {
                            assert(less[j] == paths[j]);
                        }
                    }
                }
            }
            assert forall|i: int| #[trigger] is_only_with_name(paths, i, key) implies named(
                paths,
                key,
            ) == seq![path::tidy(paths[i])] by {
                assert(is_only_with_name(less, i, key));
            }
            if exists|i: int| #[trigger] is_only_with_name(less, i, key) {
                let i = choose|i: int| #[trigger] is_only_with_name(less, i, key);
                assert(is_only_with_name(paths, i, key));
            }
            if exists|i: int| #[trigger] is_only_with_name(paths, i, key) {
                let i = choose|i: int| #[trigger] is_only_with_name(paths, i, key);
                assert(is_only_with_name(less, i, key));
            }
            if named(less, key).len() == 0 {
                assert forall|j: int| 0 <= j < paths.len() implies name_key(#[trigger] paths[j])
                    != key by {
                    if j < n {
                        assert(less[j] == paths[j]);
                    }
                }
            }
        }
    }
}

proof fn lemma_built_path(paths: Seq<Seq<char>>, i: int)
    requires
        0 <= i < paths.len(),
        forall|j: int|
            0 <= j < paths.len() && j != i ==> lookup_key(#[trigger] paths[j]) != lookup_key(
                paths[i],
            ),
    ensures
        ResolverView::of_paths(paths).by_path.contains_key(lookup_key(paths[i])),
        ResolverView::of_paths(paths).by_path[lookup_key(paths[i])] == path::tidy(paths[i]),
    decreases paths.len(),
{
    let less = paths.drop_last();
    if i < less.len() {
        assert forall|j: int| 0 <= j < less.len() && j != i implies lookup_key(#[trigger] less[j])
            != lookup_key(less[i]) by {
            assert(less[j] == paths[j]);
        }
        lemma_built_path(less, i);
        assert(lookup_key(paths[less.len() as int]) != lookup_key(paths[i]));
    }
}

/// A target means a path if and only if the path is its only candidate. A target that is empty
/// but for `.md` means nothing.
pub proof fn law_target_means_its_only_candidate(
    v: ResolverView,
    target: Seq<char>,
    p: Seq<char>,
)
    ensures
        v.resolved(target) == Some(p) <==> v.candidates(target) == seq![p],
        is_nameless(target) ==> v.candidates(target) == Seq::<Seq<char>>::empty() && v.resolved(
            target,
        ) is None,
        is_nameless(Seq::empty()),
        forall|suffix: Seq<char>|
            text::eq_ignore_ascii_case(suffix, seq!['.', 'm', 'd']) ==> #[trigger] is_nameless(
                suffix,
            ),
{
    assert(v.candidates(target).len() == 1 ==> v.candidates(target) =~= seq![
        v.candidates(target)[0],
    ]);
    assert forall|suffix: Seq<char>|
        text::eq_ignore_ascii_case(suffix, seq!['.', 'm', 'd']) implies #[trigger] is_nameless(
        suffix,
    ) by {
        assert(suffix.skip(0) =~= suffix);
    }
}

/// A path that was removed is no candidate for any target.
pub proof fn law_removed_path_is_no_candidate(v: ResolverView, p: Seq<char>, target: Seq<char>)
    requires
        v.consistent(),
        path::is_tidy(p),
    ensures
        !v.without_path(p).candidates(target).contains(p),
{
    let u = v.without_path(p);
    let all = u.candidates(target);
    if all.contains(p) {
        let i = choose|i: int| 0 <= i < all.len() && all[i] == p;
        if has_separator(target) {
            let key = lookup_key(target);
            assert(u.by_path.contains_key(key) && u.by_path[key] == p);
            assert(v.by_path.contains_key(key));
            assert(false);
        } else {
            let key = target_key(target);
            if key == name_key(p) {
                lemma_others(paths_at(v.by_stem, key), p, i);
            } else {
                assert(v.by_stem.contains_key(key) && v.by_stem[key][i] == p);
            }
            assert(false);
        }
    }
}

/// A path that was added is what every target means that is written as a path and has its key;
/// a target that is written as a name and has the key of its name means it when no other path
/// has such a name.
pub proof fn law_added_path_resolves(v: ResolverView, p: Seq<char>, target: Seq<char>)
    requires
        !is_nameless(target),
    ensures
        has_separator(target) && lookup_key(target) == lookup_key(p) ==> v.with_path(p).resolved(
            target,
        ) == Some(path::tidy(p)),
        !has_separator(target) && target_key(target) == name_key(p) ==> {
            &&& v.with_path(p).candidates(target) == paths_at(v.by_stem, name_key(p)).push(
                path::tidy(p),
            )
            &&& v.with_path(p).resolved(target) == if paths_at(v.by_stem, name_key(p)).len()
                == 0 {
                Some(path::tidy(p))
            } else {
                None
            }
        },
{
}

/// Removing a path that was just added leaves all answers of a resolver as they were before, if
/// it knew neither the path nor another path under the same key; and so does removing a path that
/// was never added.
pub proof fn law_remove_undoes_add(v: ResolverView, p: Seq<char>, target: Seq<char>)
    requires
        !v.by_path.contains_key(lookup_key(p)),
        !paths_at(v.by_stem, name_key(p)).contains(path::tidy(p)),
    ensures
        v.with_path(p).without_path(p).candidates(target) == v.candidates(target),
        v.with_path(p).without_path(p).resolved(target) == v.resolved(target),
        v.without_path(p).candidates(target) == v.candidates(target),
        v.without_path(p).resolved(target) == v.resolved(target),
{
    let w = v.with_path(p);
    let t = path::tidy(p);
    let name = name_key(p);
    let all = paths_at(v.by_stem, name);
    lemma_others_all(all, t);
    assert(all.push(t).drop_last() =~= all);
    assert(others(paths_at(w.by_stem, name), t) =~= all);
    assert(paths_at(w.without_path(p).by_stem, name) =~= all);
    assert(paths_at(v.without_path(p).by_stem, name) =~= all);
    assert(w.without_path(p).by_path =~= v.by_path);
    assert(v.without_path(p).by_path =~= v.by_path);
}

proof fn lemma_others_all(s: Seq<Seq<char>>, p: Seq<char>)
    requires
        !s.contains(p),
    ensures
        others(s, p) == s,
    decreases s.len(),
{
    if s.len() > 0 {
        let d = s.drop_last();
        assert(s.contains(s.last()));
        if d.contains(p) {
            let j = choose|j: int| 0 <= j < d.len() && d[j] == p;
            assert(s[j] == p);
        }
        lemma_others_all(d, p);
        assert(s =~= d.push(s.last()));
    }
}

/// A target means the same with `.md`, in any letter case, at its end as without.
pub proof fn law_md_is_optional(v: ResolverView, target: Seq<char>, suffix: Seq<char>)
    requires
        text::eq_ignore_ascii_case(suffix, seq!['.', 'm', 'd']),
        without_md(target) == target,
    ensures
        v.candidates(target + suffix) == v.candidates(target),
        v.resolved(target + suffix) == v.resolved(target),
{
    let long = target + suffix;
    lemma_no_separator(suffix);
    assert(long.skip(long.len() - 3) =~= suffix);
    assert(long.take(long.len() - 3) =~= target);
    lemma_contains_add(target, suffix, '/');
    lemma_contains_add(target, suffix, '\\');
    lemma_slashes_md(long);
    lemma_slashes_md(target);
}

proof fn lemma_contains_add(a: Seq<char>, b: Seq<char>, c: char)
    ensures
        (a + b).contains(c) <==> a.contains(c) || b.contains(c),
{
    if a.contains(c) {
        let i = choose|i: int| 0 <= i < a.len() && a[i] == c;
        assert((a + b)[i] == c);
    }
    if b.contains(c) {
        let i = choose|i: int| 0 <= i < b.len() && b[i] == c;
        assert((a + b)[a.len() + i] == c);
    }
    if (a + b).contains(c) {
        let i = choose|i: int| 0 <= i < (a + b).len() && (a + b)[i] == c;
        if i < a.len() {
            assert(a[i] == c);
        } else {
            assert(b[i - a.len()] == c);
        }
    }
}

/// No separator stands in `.md`.
proof fn lemma_no_separator(suffix: Seq<char>)
    requires
        text::eq_ignore_ascii_case(suffix, seq!['.', 'm', 'd']),
    ensures
        !suffix.contains('/'),
        !suffix.contains('\\'),
{
    let md = seq!['.', 'm', 'd'];
    assert forall|i: int| 0 <= i < suffix.len() implies (#[trigger] suffix[i]) != '/' && suffix[i]
        != '\\' by {
        assert(text::ascii_lower(suffix[i]) == text::ascii_lower(md[i]));
    }
}

/// Slashes do not touch `.md`.
proof fn lemma_slashes_md(s: Seq<char>)
    ensures
        without_md(path::forward_slashes(s)) == path::forward_slashes(without_md(s)),
        path::forward_slashes(s).len() == s.len(),
{
    let md = seq!['.', 'm', 'd'];
    let t = path::forward_slashes(s);
    if s.len() >= 3 {
        let n = s.len() - 3;
        assert(t.skip(n) =~= path::forward_slashes(s.skip(n)));
        assert(t.take(n) =~= path::forward_slashes(s.take(n)));
        if text::eq_ignore_ascii_case(s.skip(n), md) {
            lemma_no_separator(s.skip(n));
            assert forall|i: int| 0 <= i < 3 implies t.skip(n)[i] == #[trigger] s.skip(n)[i] by {
                assert(s.skip(n).contains(s.skip(n)[i]));
            }
            assert(t.skip(n) =~= s.skip(n));
        } else if text::eq_ignore_ascii_case(t.skip(n), md) {
            lemma_no_separator(t.skip(n));
            assert forall|i: int| 0 <= i < 3 implies t.skip(n)[i] == #[trigger] s.skip(n)[i] by {
                assert(t.skip(n).contains(t.skip(n)[i]));
            }
            assert(t.skip(n) =~= s.skip(n));
        }
    }
}

/// A target means the same with `\` as with `/` between its parts.
pub proof fn law_backslash_is_a_separator(v: ResolverView, target: Seq<char>)
    ensures
        v.candidates(path::forward_slashes(target)) == v.candidates(target),
        v.resolved(path::forward_slashes(target)) == v.resolved(target),
{
    let t = path::forward_slashes(target);
    assert(path::forward_slashes(t) =~= t);
    lemma_slashes_md(target);
    assert(has_separator(t) == has_separator(target)) by {
        if target.contains('/') {
            let i = choose|i: int| 0 <= i < target.len() && target[i] == '/';
            assert(t[i] == '/');
        }
        if target.contains('\\') {
            let i = choose|i: int| 0 <= i < target.len() && target[i] == '\\';
            assert(t[i] == '/');
        }
        if has_separator(t) {
            let i = choose|i: int| 0 <= i < t.len() && (t[i] == '/' || t[i] == '\\');
            assert(target.contains(target[i]));
        }
    }
    if !has_separator(target) {
        assert forall|i: int| 0 <= i < t.len() implies t[i] == target[i] by {
            assert(target.contains(target[i]));
        }
        assert(t =~= target);
    }
}

/// ASCII targets that differ at most in the case of letters mean the same.
pub proof fn law_letter_case_does_not_matter(v: ResolverView, a: Seq<char>, b: Seq<char>)
    requires
        text::eq_ignore_ascii_case(a, b),
    ensures
        v.ascii_candidates(a) == v.ascii_candidates(b),
{
    lemma_case_separator(a, b, '/');
    lemma_case_separator(a, b, '\\');
    let fa = path::forward_slashes(a);
    let fb = path::forward_slashes(b);
    assert forall|i: int| 0 <= i < fa.len() implies text::ascii_lower(#[trigger] fa[i])
        == text::ascii_lower(fb[i]) by {
        assert(text::ascii_lower(a[i]) == text::ascii_lower(b[i]));
    }
    lemma_case_key(a, b);
    lemma_case_key(fa, fb);
}

proof fn lemma_case_separator(a: Seq<char>, b: Seq<char>, c: char)
    requires
        text::eq_ignore_ascii_case(a, b),
        c == '/' || c == '\\',
    ensures
        a.contains(c) == b.contains(c),
{
    if a.contains(c) {
        let i = choose|i: int| 0 <= i < a.len() && a[i] == c;
        assert(text::ascii_lower(a[i]) == text::ascii_lower(b[i]));
        assert(b[i] == c);
    }
    if b.contains(c) {
        let i = choose|i: int| 0 <= i < b.len() && b[i] == c;
        assert(text::ascii_lower(a[i]) == text::ascii_lower(b[i]));
        assert(a[i] == c);
    }
}

proof fn lemma_case_key(a: Seq<char>, b: Seq<char>)
    requires
        text::eq_ignore_ascii_case(a, b),
    ensures
        ascii_key(a) == ascii_key(b),
        is_nameless(a) == is_nameless(b),
{
    if a.len() >= 3 {
        let n = a.len() - 3;
        let md = seq!['.', 'm', 'd'];
        assert forall|i: int| 0 <= i < 3 implies text::ascii_lower(#[trigger] a.skip(n)[i])
            == text::ascii_lower(b.skip(n)[i]) by {
            assert(text::ascii_lower(a[n + i]) == text::ascii_lower(b[n + i]));
        }
        if text::eq_ignore_ascii_case(a.skip(n), md) {
            assert forall|i: int| 0 <= i < 3 implies text::ascii_lower(#[trigger] b.skip(n)[i])
                == text::ascii_lower(md[i]) by {
                assert(text::ascii_lower(a.skip(n)[i]) == text::ascii_lower(md[i]));
            }
        }
        if text::eq_ignore_ascii_case(b.skip(n), md) {
            assert forall|i: int| 0 <= i < 3 implies text::ascii_lower(#[trigger] a.skip(n)[i])
                == text::ascii_lower(md[i]) by {
                assert(text::ascii_lower(b.skip(n)[i]) == text::ascii_lower(md[i]));
            }
        }
    }
    assert(ascii_key(a) =~= ascii_key(b)) by {
        let x = without_md(a);
        let y = without_md(b);
        assert(x.len() == y.len());
        assert forall|i: int| 0 <= i < x.len() implies text::ascii_lower(#[trigger] x[i])
            == text::ascii_lower(y[i]) by {
            assert(text::ascii_lower(a[i]) == text::ascii_lower(b[i]));
        }
    }
}

/// Two spellings of a target that Unicode takes as the same, apart from `.md`, mean the same: the
/// composed one finds what was named by the decomposed one, and the other way round.
pub proof fn law_unicode_form_does_not_matter(v: ResolverView, a: Seq<char>, b: Seq<char>)
    requires
        path::nfc(without_md(path::forward_slashes(a))) == path::nfc(
            without_md(path::forward_slashes(b)),
        ),
        has_separator(a) == has_separator(b),
        is_nameless(a) == is_nameless(b),
    ensures
        v.candidates(a) == v.candidates(b),
        v.resolved(a) == v.resolved(b),
        has_separator(a) && !is_nameless(a) ==> v.with_path(a).resolved(b) == Some(path::tidy(a)),
{
    if !has_separator(a) {
        lemma_no_slashes(a);
        lemma_no_slashes(b);
    }
}

proof fn lemma_no_slashes(s: Seq<char>)
    requires
        !has_separator(s),
    ensures
        path::forward_slashes(s) == s,
{
    assert forall|i: int| 0 <= i < s.len() implies s[i] != '\\' by {
        assert(s.contains(s[i]));
    }
    assert(path::forward_slashes(s) =~= s);
}

/// What is left of a list without a path is all else that it held.
pub proof fn law_list_without_path(list: Seq<Seq<char>>, p: Seq<char>, x: Seq<char>)
    ensures
        others(list, p).contains(x) <==> list.contains(x) && x != p,
        x != p ==> others(list.push(x), p) == others(list, p).push(x),
        others(list.push(p), p) == others(list, p),
    decreases list.len(),
{
    assert(list.push(x).drop_last() =~= list);
    assert(list.push(p).drop_last() =~= list);
    if list.len() > 0 {
        let d = list.drop_last();
        let l = list.last();
        let before = others(d, p);
        let all = others(list, p);
        law_list_without_path(d, p, x);
        if before.contains(x) {
            let i = choose|i: int| 0 <= i < before.len() && before[i] == x;
            assert(all[i] == x);
        }
        if d.contains(x) {
            let i = choose|i: int| 0 <= i < d.len() && d[i] == x;
            assert(list[i] == x);
        }
        if l != p {
            assert(all == before.push(l));
            assert(all[before.len() as int] == l);
            if all.contains(x) {
                let i = choose|i: int| 0 <= i < all.len() && all[i] == x;
                if i < before.len() {
                    assert(before[i] == x);
                }
            }
        }
        if list.contains(x) {
            let i = choose|i: int| 0 <= i < list.len() && list[i] == x;
            if i < d.len() {
                assert(d[i] == x);
            }
        }
        assert(list[list.len() - 1] == l);
    }
}

/// The extension `.md`, in capital or small letters, is no part of a key; any other end is.
pub proof fn law_key_without_extension(s: Seq<char>, m: char, d: char)
    ensures
        (m == 'm' || m == 'M') && (d == 'd' || d == 'D') ==> without_md(s + seq!['.', m, d]) == s,
        !((m == 'm' || m == 'M') && (d == 'd' || d == 'D')) ==> without_md(s + seq!['.', m, d]) == s
            + seq!['.', m, d],
        s.len() < 3 || s[s.len() - 3] != '.' ==> without_md(s) == s,
{
    let t = s + seq!['.', m, d];
    let md = seq!['.', 'm', 'd'];
    text::law_letter_case(m, 'm');
    text::law_letter_case(d, 'd');
    assert(t.take(t.len() - 3) =~= s);
    let e = t.skip(t.len() - 3);
    assert(e =~= seq!['.', m, d]);
    if text::eq_ignore_ascii_case(e, md) {
        assert(text::ascii_lower(e[1]) == text::ascii_lower(md[1]));
        assert(text::ascii_lower(e[2]) == text::ascii_lower(md[2]));
    }
    if (m == 'm' || m == 'M') && (d == 'd' || d == 'D') {
        assert forall|i: int| 0 <= i < e.len() implies text::ascii_lower(#[trigger] e[i])
            == text::ascii_lower(md[i]) by {
            if i == 1 {
                assert(e[1] == m);
            } else if i == 2 {
                assert(e[2] == d);
            }
        }
    }
    if s.len() >= 3 && text::eq_ignore_ascii_case(s.skip(s.len() - 3), md) {
        let f = s.skip(s.len() - 3);
        assert(text::ascii_lower(f[0]) == text::ascii_lower(md[0]));
        text::law_letter_case(f[0], '.');
    }
}

/// A link by name finds the one note of that name, in whatever directory it is, and a link by
/// path finds the note at that path; the extension may be left out in both.
pub proof fn law_links_find_notes(dir: Seq<char>, name: Seq<char>)
    requires
        dir.len() > 0,
        path::is_name(name),
        path::is_name(name + seq!['.', 'm', 'd']),
        without_md(name) == name,
    ensures
        ({
            let file = name + seq!['.', 'm', 'd'];
            let p = dir + seq!['/'] + file;
            let v = ResolverView::of_paths(seq![p]);
            &&& v.resolved(name) == Some(path::tidy(p))
            &&& v.resolved(file) == Some(path::tidy(p))
            &&& v.resolved(dir + seq!['/'] + name) == Some(path::tidy(p))
            &&& v.resolved(p) == Some(path::tidy(p))
            &&& v.without_path(p).resolved(name) is None
            &&& v.without_path(p).resolved(p) is None
        }),
{
    let md = seq!['.', 'm', 'd'];
    let file = name + md;
    let p = dir + seq!['/'] + file;
    let q = dir + seq!['/'] + name;
    let v = ResolverView::of_paths(seq![p]);
    reveal_with_fuel(ResolverView::of_paths, 2);
    assert(seq![p].drop_last() =~= Seq::<Seq<char>>::empty());
    path::law_file_name(dir, file);
    law_key_without_extension(name, 'm', 'd');
    law_key_without_extension(q, 'm', 'd');
    assert(q + md =~= p);
    lemma_slashes_md(p);
    lemma_slashes_md(q);
    assert(p[dir.len() as int] == '/');
    assert(q[dir.len() as int] == '/');
    assert(!has_separator(file));
    assert(without_md(q) == q) by {
        if q.len() >= 3 && text::eq_ignore_ascii_case(q.skip(q.len() - 3), md) {
            let e = q.skip(q.len() - 3);
            if name.len() >= 3 {
                assert(e =~= name.skip(name.len() - 3));
            } else {
                let i = (2 - name.len()) as int;
                assert(e[i] == '/');
                assert(text::ascii_lower(e[i]) == text::ascii_lower(md[i]));
                text::law_letter_case(e[i], md[i]);
            }
        }
    }
    assert(lookup_key(q) == lookup_key(p));
    let empty = ResolverView::empty();
    assert(v == empty.with_path(p));
    law_added_path_resolves(empty, p, name);
    law_added_path_resolves(empty, p, file);
    law_added_path_resolves(empty, p, q);
    law_added_path_resolves(empty, p, p);
    law_remove_undoes_add(empty, p, name);
    law_remove_undoes_add(empty, p, p);
}

/// Adding or removing a path changes the answers for no target that has neither its name nor
/// its path.
pub proof fn law_other_targets_are_untouched(v: ResolverView, p: Seq<char>, target: Seq<char>)
    requires
        lookup_key(target) != lookup_key(p),
        target_key(target) != name_key(p),
    ensures
        v.with_path(p).candidates(target) == v.candidates(target),
        v.without_path(p).candidates(target) == v.candidates(target),
        v.with_path(p).resolved(target) == v.resolved(target),
        v.without_path(p).resolved(target) == v.resolved(target),
{
}

} // verus!
