//! Decisions of filesystem operations: which paths are listed, moved and reported missing.
use crate::error::{ErrorView, VaultError};
use crate::exclude;
use crate::exclude::GlobFilter;
use crate::path;
use crate::path::{Reading, ResolvedPath, Step, StepView};
use crate::text;
use vstd::prelude::*;

verus! {

/// Where a file was and where it is after a move, relative to the vault.
#[derive(Debug)]
pub struct MoveResult {
    pub from: String,
    pub to: String,
}

/// Whether a file name starts with a dot.
pub open spec fn hidden_name(name: Seq<char>) -> bool {
    name.len() > 0 && name[0] == '.'
}

/// Whether a file or directory is hidden by its name.
pub fn is_hidden(name: &str) -> (r: bool)
    ensures
        r == hidden_name(name@),
{
    let chars = text::to_chars(name);
    chars.len() > 0 && chars[0] == '.'
}

/// The error for a failed operation on a file.
pub open spec fn not_found_error(path: Seq<char>, not_found: bool, message: Seq<char>) -> ErrorView {
    if not_found {
        ErrorView::NoteNotFound(path)
    } else {
        ErrorView::Io(message)
    }
}

/// Turns a failed operation on a file into an error: a missing file is a missing note.
pub fn map_not_found(path: &str, not_found: bool, message: &str) -> (r: VaultError)
    ensures
        r@ == not_found_error(path@, not_found, message@),
{
    if not_found {
        VaultError::NoteNotFound(path.to_owned())
    } else {
        VaultError::Io(message.to_owned())
    }
}

/// A place on disk, or the step that is needed to find it.
#[derive(Debug)]
pub enum Location {
    At(String),
    Pending(Step),
}

/// The mathematical form of a location or its error.
pub open spec fn location_result(r: Result<Location, VaultError>) -> Result<StepView, ErrorView> {
    match r {
        Ok(Location::At(p)) => Ok(StepView::Done { relative: Seq::empty(), absolute: p@ }),
        Ok(Location::Pending(s)) => Ok(s@),
        Err(e) => Err(e@),
    }
}

/// A resolved path of which only the place on disk is of interest.
pub open spec fn place_only(r: Result<StepView, ErrorView>) -> Result<StepView, ErrorView> {
    match r {
        Ok(StepView::Done { relative, absolute }) => Ok(
            StepView::Done { relative: Seq::empty(), absolute },
        ),
        _ => r,
    }
}

/// Resolves a relative path against the vault root, ensuring it stays within the vault: the
/// place on disk of the path, which need not exist.
pub fn resolve_path(
    vault_root: &str,
    relative: &str,
    seen: &Vec<Reading>,
    parent_inside: Option<bool>,
) -> (r: Result<Location, VaultError>)
    ensures
        location_result(r) == place_only(
            path::for_write(vault_root@, relative@, seen@, parent_inside),
        ),
{
    match path::resolve_for_write(vault_root, relative, seen, parent_inside) {
        Ok(Step::Done(p)) => Ok(Location::At(p.absolute)),
        Ok(step) => Ok(Location::Pending(step)),
        Err(e) => Err(e),
    }
}

/// Whether a path that was looked up exists and is a file.
pub fn file_exists(resolved: &Result<ResolvedPath, VaultError>, is_file: bool) -> (r: bool)
    ensures
        r == (resolved is Ok && is_file),
{
    match resolved {
        Ok(_) => is_file,
        Err(_) => false,
    }
}

/// Decides on a move: nothing may be at the destination.
pub fn move_file(from: ResolvedPath, to: ResolvedPath, to_exists: bool, to_argument: &str) -> (r:
    Result<MoveResult, VaultError>)
    ensures
        match r {
            Ok(m) => !to_exists && m.from@ == from.relative@ && m.to@ == to.relative@,
            Err(e) => to_exists && e@ == ErrorView::AlreadyExists(to_argument@),
        },
{
    if to_exists {
        Err(VaultError::AlreadyExists(to_argument.to_owned()))
    } else {
        Ok(MoveResult { from: from.relative, to: to.relative })
    }
}

// ---------------------------------------------------------------------------
// Listing
// ---------------------------------------------------------------------------

/// Whether one of the components of a path, from `k` on, is hidden.
pub open spec fn any_hidden(cs: Seq<Seq<char>>, k: nat) -> bool {
    exists|i: int| k <= i < cs.len() && hidden_name(#[trigger] cs[i])
}

/// Whether an entry is shown in the listing of a directory: nothing on the way to it is hidden.
pub open spec fn shown(dir: Seq<char>, entry: Seq<char>) -> bool {
    !any_hidden(path::components(entry), path::components(dir).len())
}

/// Whether a path passes a filter.
pub open spec fn passes(filter: Option<Seq<char>>, p: Seq<char>) -> bool {
    match filter {
        Some(g) => exclude::glob_matches(g, p),
        None => true,
    }
}

/// The paths, in ascending order, of those among the first `k` entries that are shown and pass a
/// filter. An entry of the vault that has no vault-relative path is left out.
pub open spec fn listed(
    root: Seq<char>,
    dir: Seq<char>,
    entries: Seq<Seq<char>>,
    filter: Option<Seq<char>>,
    k: nat,
) -> Result<Seq<Seq<char>>, ErrorView>
    decreases k,
{
    if k == 0 {
        Ok(Seq::empty())
    } else {
        match listed(root, dir, entries, filter, (k - 1) as nat) {
            Err(e) => Err(e),
            Ok(before) => if !shown(dir, entries[k - 1]) || path::lacks_vault_path(
                root,
                entries[k - 1],
            ) {
                Ok(before)
            } else {
                match path::below_root(root, entries[k - 1]) {
                    Err(e) => Err(e),
                    Ok(p) => if passes(filter, p) {
                        Ok(path::with_path_sorted(before, p))
                    } else {
                        Ok(before)
                    },
                }
            },
        }
    }
}

/// The mathematical form of a list of paths or its error.
pub open spec fn list_result(r: Result<Vec<String>, VaultError>) -> Result<
    Seq<Seq<char>>,
    ErrorView,
> {
    match r {
        Ok(v) => Ok(text::strings(v@)),
        Err(e) => Err(e@),
    }
}

/// What listing a directory gives.
pub open spec fn listing(
    root: Seq<char>,
    dir: Seq<char>,
    entries: Seq<Seq<char>>,
    glob: Option<Seq<char>>,
) -> Result<Seq<Seq<char>>, ErrorView> {
    match glob {
        Some(g) => match exclude::filter_error(g) {
            Some(m) => Err(ErrorView::InvalidPath("invalid glob pattern: "@ + m)),
            None => listed(root, dir, entries, glob, entries.len()),
        },
        None => listed(root, dir, entries, glob, entries.len()),
    }
}

/// The directory to list, given what looking it up gave and whether a directory is there.
pub fn listed_directory(dir: &str, found: Result<ResolvedPath, VaultError>, is_dir: bool) -> (r:
    Result<String, VaultError>)
    ensures
        match found {
            Ok(p) => if is_dir {
                r matches Ok(a) && a == p.absolute
            } else {
                r matches Err(e) && e@ == ErrorView::DirectoryNotFound(dir@)
            },
            Err(e) => if e is NoteNotFound {
                r matches Err(f) && f@ == ErrorView::DirectoryNotFound(dir@)
            } else {
                r matches Err(f) && f == e
            },
        },
{
    match found {
        Ok(p) => if is_dir {
            Ok(p.absolute)
        } else {
            Err(VaultError::DirectoryNotFound(dir.to_owned()))
        },
        Err(e) => match e {
            VaultError::NoteNotFound(_) => Err(VaultError::DirectoryNotFound(dir.to_owned())),
            other => Err(other),
        },
    }
}

/// Whether nothing between a directory and an entry below it is hidden.
pub fn is_shown(dir: &str, entry: &str) -> (r: bool)
    ensures
        r == shown(dir@, entry@),
{
    let dir_chars = text::to_chars(dir);
    let entry_chars = text::to_chars(entry);
    let above = path::split_components(&dir_chars);
    let cs = path::split_components(&entry_chars);
    let ghost all = text::texts(cs@);
    let mut i: usize = above.len();
    assert(text::texts(above@).len() == above@.len());
    assert(all.len() == cs@.len());
    while i < cs.len()
        invariant
            above.len() <= i,
            all == text::texts(cs@),
            all == path::components(entry@),
            above@.len() == path::components(dir@).len(),
            all.len() == cs@.len(),
            forall|j: int| above.len() <= j < i && j < all.len() ==> !hidden_name(#[trigger] all[j]),
        decreases cs.len() - i,
    {
        assert(all[i as int] == cs@[i as int]@);
        if cs[i].len() > 0 && cs[i][0] == '.' {
            assert(hidden_name(all[i as int]));
            return false;
        }
        i = i + 1;
    }
    true
}

proof fn lemma_listed_err(
    root: Seq<char>,
    dir: Seq<char>,
    entries: Seq<Seq<char>>,
    filter: Option<Seq<char>>,
    k: nat,
    n: nat,
)
    requires
        listed(root, dir, entries, filter, k) is Err,
        k <= n,
    ensures
        listed(root, dir, entries, filter, n) == listed(root, dir, entries, filter, k),
    decreases n,
{
    if k < n {
        lemma_listed_err(root, dir, entries, filter, k, (n - 1) as nat);
    }
}

/// Lists the entries of a directory, given as absolute paths, relative to the vault root.
///
/// Hidden files and what lies in hidden directories are left out; `glob` filters by a pattern.
pub fn list_files(
    canonical_root: &str,
    dir: &str,
    entries: &Vec<String>,
    glob: Option<&str>,
) -> (r: Result<Vec<String>, VaultError>)
    ensures
        list_result(r) == listing(
            canonical_root@,
            dir@,
            text::strings(entries@),
            exclude::option_str(glob),
        ),
{
    let filter = match glob {
        Some(g) => match GlobFilter::new(g) {
            Ok(f) => Some(f),
            Err(e) => {
                return Err(e);
            },
        },
        None => None,
    };
    let ghost es = text::strings(entries@);
    let ghost g = exclude::option_str(glob);
    let mut r: Vec<String> = Vec::new();
    assert(text::strings(r@) =~= Seq::<Seq<char>>::empty());
    let mut k: usize = 0;
    while k < entries.len()
        invariant
            k <= entries.len(),
            es == text::strings(entries@),
            g == exclude::option_str(glob),
            match filter {
                Some(f) => g == Some(f@),
                None => g is None,
            },
            g matches Some(p) ==> exclude::filter_error(p) is None,
            listed(canonical_root@, dir@, es, g, k as nat) == Ok::<Seq<Seq<char>>, ErrorView>(
                text::strings(r@),
            ),
        decreases entries.len() - k,
    {
        assert(es[k as int] == entries@[k as int]@);
        if is_shown(dir, &entries[k]) {
            match path::relative_from_absolute(canonical_root, &entries[k]) {
                Err(e) => {
                    if !path::stays_below(canonical_root, &entries[k]) {
                        proof {
                            lemma_listed_err(
                                canonical_root@,
                                dir@,
                                es,
                                g,
                                (k + 1) as nat,
                                entries.len() as nat,
                            );
                        }
                        return Err(e);
                    }
                },
                Ok(p) => {
                    let pass = match &filter {
                        Some(f) => f.is_match(&p),
                        None => true,
                    };
                    if pass {
                        path::insert_path_sorted(&mut r, p);
                    }
                },
            }
        }
        k = k + 1;
    }
    Ok(r)
}

// ---------------------------------------------------------------------------
// Laws
// ---------------------------------------------------------------------------

/// A listing is in ascending order, component by component, and holds just the paths of the
/// entries that are shown and pass the filter.
pub proof fn law_listing_is_ascending(
    root: Seq<char>,
    dir: Seq<char>,
    entries: Seq<Seq<char>>,
    filter: Option<Seq<char>>,
    k: nat,
)
    requires
        k <= entries.len(),
    ensures
        listed(root, dir, entries, filter, k) matches Ok(list) ==> {
            &&& path::paths_ascend(list)
            &&& forall|p: Seq<char>| #[trigger]
                list.contains(p) <==> exists|i: int|
                    0 <= i < k && is_entry_of(root, dir, #[trigger] entries[i], filter, p)
        },
    decreases k,
{
    if k > 0 && listed(root, dir, entries, filter, k) is Ok {
        let entry = entries[k - 1];
        let before = listed(root, dir, entries, filter, (k - 1) as nat)->Ok_0;
        let list = listed(root, dir, entries, filter, k)->Ok_0;
        law_listing_is_ascending(root, dir, entries, filter, (k - 1) as nat);
        let taken = shown(dir, entry) && !path::lacks_vault_path(root, entry) && passes(
            filter,
            path::below_root(root, entry)->Ok_0,
        );
        if taken {
            path::law_inserted_path_keeps_order(before, path::below_root(root, entry)->Ok_0);
        }
        assert forall|p: Seq<char>| #[trigger] list.contains(p) <==> exists|i: int|
            0 <= i < k && is_entry_of(root, dir, #[trigger] entries[i], filter, p) by {
            let earlier = exists|i: int|
                0 <= i < k - 1 && is_entry_of(root, dir, #[trigger] entries[i], filter, p);
            assert(before.contains(p) <==> earlier);
            assert(list.contains(p) <==> before.contains(p) || is_entry_of(
                root,
                dir,
                entry,
                filter,
                p,
            ));
            if earlier {
                let i = choose|i: int|
                    0 <= i < k - 1 && is_entry_of(root, dir, #[trigger] entries[i], filter, p);
                assert(0 <= i < k && is_entry_of(root, dir, entries[i], filter, p));
            }
            if is_entry_of(root, dir, entry, filter, p) {
                assert(0 <= k - 1 < k && is_entry_of(root, dir, entries[k - 1], filter, p));
            }
        }
    }
}

/// Listing what lies in the vault always succeeds, whatever the names of the entries.
pub proof fn law_listing_of_the_vault_succeeds(
    root: Seq<char>,
    dir: Seq<char>,
    entries: Seq<Seq<char>>,
    filter: Option<Seq<char>>,
    k: nat,
)
    requires
        k <= entries.len(),
        forall|i: int|
            0 <= i < k ==> (path::components_below(root, #[trigger] entries[i]) matches Some(below)
                && path::walked(below, below.len()) is Some),
    ensures
        listed(root, dir, entries, filter, k) is Ok,
    decreases k,
{
    if k > 0 {
        law_listing_of_the_vault_succeeds(root, dir, entries, filter, (k - 1) as nat);
        assert(path::components_below(root, entries[k - 1]) is Some);
    }
}

/// Whether an entry is shown, passes a filter, and has this path below the root.
pub open spec fn is_entry_of(
    root: Seq<char>,
    dir: Seq<char>,
    entry: Seq<char>,
    filter: Option<Seq<char>>,
    p: Seq<char>,
) -> bool {
    &&& shown(dir, entry)
    &&& path::below_root(root, entry) == Ok::<Seq<char>, ErrorView>(p)
    &&& passes(filter, p)
}

/// What is shown of a directory are the entries in which no name below the directory starts with
/// a dot; names above it do not matter.
pub proof fn law_hidden_entries(dir: Seq<char>, entry: Seq<char>, below: Seq<Seq<char>>)
    requires
        path::components(entry) == path::components(dir) + below,
    ensures
        shown(dir, entry) <==> forall|i: int|
            0 <= i < below.len() && (#[trigger] below[i]).len() > 0 ==> below[i][0] != '.',
{
    let d = path::components(dir);
    let cs = d + below;
    if forall|i: int| 0 <= i < below.len() && (#[trigger] below[i]).len() > 0 ==> below[i][0] != '.' {
        assert forall|i: int| d.len() <= i < cs.len() implies !hidden_name(#[trigger] cs[i]) by {
            assert(cs[i] == below[i - d.len()]);
        }
    } else {
        let i = choose|i: int|
            0 <= i < below.len() && (#[trigger] below[i]).len() > 0 && below[i][0] == '.';
        assert(hidden_name(cs[d.len() + i]));
    }
}

/// A pattern only leaves entries out: with one a listing holds those of the whole listing that
/// match it.
pub proof fn law_filtered_listing(
    root: Seq<char>,
    dir: Seq<char>,
    entries: Seq<Seq<char>>,
    glob: Seq<char>,
    all: Seq<Seq<char>>,
    some: Seq<Seq<char>>,
    p: Seq<char>,
)
    requires
        listing(root, dir, entries, None) == Ok::<Seq<Seq<char>>, ErrorView>(all),
        listing(root, dir, entries, Some(glob)) == Ok::<Seq<Seq<char>>, ErrorView>(some),
    ensures
        some.contains(p) <==> all.contains(p) && exclude::glob_matches(glob, p),
{
    let n = entries.len();
    law_listing_is_ascending(root, dir, entries, None, n);
    law_listing_is_ascending(root, dir, entries, Some(glob), n);
    assert(all.contains(p) <==> exists|i: int|
        0 <= i < n && is_entry_of(root, dir, #[trigger] entries[i], None, p));
    assert(some.contains(p) <==> exists|i: int|
        0 <= i < n && is_entry_of(root, dir, #[trigger] entries[i], Some(glob), p));
    if some.contains(p) {
        let i = choose|i: int|
            0 <= i < n && is_entry_of(root, dir, #[trigger] entries[i], Some(glob), p);
        assert(is_entry_of(root, dir, entries[i], None, p));
    }
    if all.contains(p) && exclude::glob_matches(glob, p) {
        let i = choose|i: int|
            0 <= i < n && is_entry_of(root, dir, #[trigger] entries[i], None, p);
        assert(is_entry_of(root, dir, entries[i], Some(glob), p));
    }
}

/// A listing with a pattern that is none is refused, and nothing else about a pattern is.
pub proof fn law_refused_patterns(
    root: Seq<char>,
    dir: Seq<char>,
    entries: Seq<Seq<char>>,
    glob: Seq<char>,
)
    ensures
        (exclude::glob_error(glob) is Some || exclude::glob_set_error(seq![glob]) is Some)
            ==> (listing(root, dir, entries, Some(glob)) matches Err(ErrorView::InvalidPath(_))),
        exclude::glob_error(glob) is None && exclude::glob_set_error(seq![glob]) is None && listing(
            root,
            dir,
            entries,
            None,
        ) is Ok ==> listing(root, dir, entries, Some(glob)) is Ok,
{
    if exclude::glob_error(glob) is None && exclude::glob_set_error(seq![glob]) is None {
        lemma_filter_never_fails(root, dir, entries, glob, entries.len());
    }
}

proof fn lemma_filter_never_fails(
    root: Seq<char>,
    dir: Seq<char>,
    entries: Seq<Seq<char>>,
    glob: Seq<char>,
    k: nat,
)
    requires
        k <= entries.len(),
    ensures
        listed(root, dir, entries, None, k) is Ok ==> listed(root, dir, entries, Some(glob), k) is Ok,
    decreases k,
{
    if k > 0 {
        lemma_filter_never_fails(root, dir, entries, glob, (k - 1) as nat);
    }
}

} // verus!
