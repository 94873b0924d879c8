//! Embedding store and what surrounds the embedding model: texts, settings, responses, caches.
//!
//! The store is generic over the numbers that vectors are made of. Similarities are handed in as
//! integer keys that are ordered as the similarities are.
use crate::error::{ErrorView, VaultError};
use crate::exclude;
use crate::frontmatter;
use crate::json;
use crate::json::{JsonKind, JsonView};
use crate::models::{EmbeddingProvider, Heading, NoteMetadata};
use crate::path;
use crate::search_utils;
use crate::table::Table;
use crate::text;
use vstd::prelude::*;

verus! {

// ---------------------------------------------------------------------------
// Store
// ---------------------------------------------------------------------------

/// In-memory store from vault-relative note paths to embedding vectors of one dimension. All
/// spellings of a path are the same note.
pub struct EmbeddingStore<T> {
    embeddings: Table<Vec<T>>,
    dim: usize,
}

/// The mathematical form of an [`EmbeddingStore`].
pub struct StoreView<T> {
    pub vectors: Map<Seq<char>, Seq<T>>,
    /// The paths in the order in which they are walked.
    pub order: Seq<Seq<char>>,
    pub dim: nat,
}

impl<T> View for EmbeddingStore<T> {
    type V = StoreView<T>;

    closed spec fn view(&self) -> StoreView<T> {
        StoreView {
            vectors: self.embeddings@.map_values(|v: Vec<T>| v@),
            order: self.embeddings.keys(),
            dim: self.dim as nat,
        }
    }
}

/// Vectors with one more, if it has the dimension of the store, under the tidy form of its path.
pub open spec fn with_vector<T>(
    vectors: Map<Seq<char>, Seq<T>>,
    dim: nat,
    p: Seq<char>,
    v: Seq<T>,
) -> Map<Seq<char>, Seq<T>> {
    if v.len() == dim {
        vectors.insert(path::tidy(p), v)
    } else {
        vectors
    }
}

/// Vectors after the first `k` of a list were inserted.
pub open spec fn with_vectors<T>(
    vectors: Map<Seq<char>, Seq<T>>,
    dim: nat,
    paths: Seq<Seq<char>>,
    vs: Seq<Seq<T>>,
    k: nat,
) -> Map<Seq<char>, Seq<T>>
    decreases k,
{
    if k == 0 {
        vectors
    } else {
        with_vector(
            with_vectors(vectors, dim, paths, vs, (k - 1) as nat),
            dim,
            paths[k - 1],
            vs[k - 1],
        )
    }
}

/// The contents of vectors.
pub open spec fn vector_views<T>(vs: Seq<Vec<T>>) -> Seq<Seq<T>> {
    vs.map_values(|v: Vec<T>| v@)
}

/// The paths of cache entries.
pub open spec fn entry_paths<T>(entries: Seq<(String, Vec<T>)>) -> Seq<Seq<char>> {
    entries.map_values(|e: (String, Vec<T>)| e.0@)
}

/// The vectors of cache entries.
pub open spec fn entry_vectors<T>(entries: Seq<(String, Vec<T>)>) -> Seq<Seq<T>> {
    entries.map_values(|e: (String, Vec<T>)| e.1@)
}

/// Whether results are those of ranking the vectors of a store by keys, each with its key.
pub open spec fn ranked_by<T>(
    results: Seq<(String, i64)>,
    v: StoreView<T>,
    keys: Seq<i64>,
    top_k: nat,
) -> bool {
    exists|ranking: Seq<usize>|
        {
            &&& #[trigger] ranking.len() == if top_k <= keys.len() {
                top_k
            } else {
                keys.len()
            }
            &&& search_utils::in_rank_order(keys, ranking, keys.len())
            &&& search_utils::leaves_out_only_lower(keys, ranking, keys.len())
            &&& results.len() == ranking.len()
            &&& forall|i: int|
                0 <= i < results.len() ==> (#[trigger] results[i]).0@ == v.order[ranking[i] as int]
                    && results[i].1 == keys[ranking[i] as int]
        }
}

/// Whether a measure can give a vector this key.
pub open spec fn measures<T, F: Fn(&[T]) -> i64>(similarity: F, vector: Seq<T>, key: i64) -> bool {
    exists|v: &[T]| v@ == vector && #[trigger] similarity.ensures((v,), key)
}

impl<T> EmbeddingStore<T> {
    /// The table is well-formed, all paths are tidy, and all vectors have the dimension of the
    /// store.
    pub closed spec fn wf(&self) -> bool {
        &&& self.embeddings.wf()
        &&& forall|p: Seq<char>| #[trigger]
            self.embeddings@.contains_key(p) ==> self.embeddings@[p]@.len() == self.dim
                && path::is_tidy(p)
    }

    /// What well-formedness means for what the store holds.
    pub proof fn lemma_wf(&self)
        requires
            self.wf(),
        ensures
            forall|p: Seq<char>| #[trigger]
                self@.vectors.contains_key(p) ==> self@.vectors[p].len() == self@.dim
                    && path::is_tidy(p),
            forall|p: Seq<char>| #[trigger]
                self@.vectors.contains_key(p) <==> self@.order.contains(p),
            self@.order.no_duplicates(),
            self@.order.len() == self@.vectors.len(),
    {
        self.embeddings.lemma_keys();
        assert(self@.vectors.dom() =~= self.embeddings@.dom());
        assert forall|p: Seq<char>| #[trigger]
            self@.vectors.contains_key(p) <==> self@.order.contains(p) by {
            assert(self@.vectors.contains_key(p) <==> self.embeddings@.contains_key(p));
        }
    }

    /// Creates an empty store for embeddings of the given dimensionality.
    pub fn new(dim: usize) -> (r: Self)
        ensures
            r.wf(),
            r@.vectors == Map::<Seq<char>, Seq<T>>::empty(),
            r@.dim == dim,
    {
        let r = EmbeddingStore { embeddings: Table::new(), dim };
        assert(r@.vectors =~= Map::<Seq<char>, Seq<T>>::empty());
        r
    }

    /// Inserts or replaces the embedding for a note. A vector of another dimension is rejected.
    pub fn insert(&mut self, path: String, vec: Vec<T>)
        requires
            old(self).wf(),
        ensures
            final(self).wf(),
            final(self)@.vectors == with_vector(
                old(self)@.vectors,
                old(self)@.dim,
                path@,
                vec@,
            ),
            final(self)@.dim == old(self)@.dim,
    {
        let ghost before = self@;
        if vec.len() != self.dim {
            return ;
        }
        let ghost v = vec@;
        let ghost table = self.embeddings@;
        proof {
            path::law_tidy_path_is_the_path(path@, path@);
        }
        let path = path::tidied(&path);
        self.embeddings.insert(path, vec);
        assert forall|p: Seq<char>| #[trigger] self.embeddings@.contains_key(p) implies
            self.embeddings@[p]@.len() == self.dim && path::is_tidy(p) by {
            if p != path@ {
                assert(table.contains_key(p));
            }
        }
        assert(self@.vectors =~= before.vectors.insert(path@, v));
    }

    /// Removes a note's embedding.
    pub fn remove(&mut self, path: &str)
        requires
            old(self).wf(),
        ensures
            final(self).wf(),
            final(self)@.vectors == old(self)@.vectors.remove(path::tidy(path@)),
            final(self)@.dim == old(self)@.dim,
    {
        let ghost before = self@;
        let ghost table = self.embeddings@;
        let path = path::tidied(path);
        let _ = self.embeddings.remove(&path);
        assert forall|p: Seq<char>| #[trigger] self.embeddings@.contains_key(p) implies
            self.embeddings@[p]@.len() == self.dim && path::is_tidy(p) by {
            assert(table.contains_key(p));
        }
        assert(self@.vectors =~= before.vectors.remove(path@));
    }

    /// A note's embedding vector.
    pub fn get(&self, path: &str) -> (r: Option<&[T]>)
        requires
            self.wf(),
        ensures
            match r {
                Some(v) => self@.vectors.contains_key(path::tidy(path@)) && v@ == self@.vectors[path::tidy(path@)],
                None => !self@.vectors.contains_key(path::tidy(path@)),
            },
    {
        match self.embeddings.get(&path::tidied(path)) {
            Some(v) => Some(v.as_slice()),
            None => None,
        }
    }

    /// Number of embeddings.
    pub fn len(&self) -> (r: usize)
        requires
            self.wf(),
        ensures
            r == self@.vectors.len(),
            r == self@.order.len(),
    {
        assert(self@.vectors.dom() =~= self.embeddings@.dom());
        self.embeddings.len()
    }

    /// Whether there is no embedding.
    pub fn is_empty(&self) -> (r: bool)
        requires
            self.wf(),
        ensures
            r == (self@.vectors.len() == 0),
    {
        self.len() == 0
    }

    /// Dimension of the embeddings.
    pub fn dim(&self) -> (r: usize)
        ensures
            r == self@.dim,
    {
        self.dim
    }

    /// Finds the `top_k` notes that are most similar by a measure, the most similar first.
    ///
    /// The measure gives an integer key for a vector; the greater it is, the more similar the
    /// vector.
    pub fn query<F: Fn(&[T]) -> i64>(&self, similarity: F, top_k: usize) -> (r: Vec<(String, i64)>)
        requires
            self.wf(),
            forall|v: &[T]| #[trigger] similarity.requires((v,)),
        ensures
            exists|keys: Seq<i64>|
                {
                    &&& #[trigger] keys.len() == self@.order.len()
                    &&& forall|i: int|
                        0 <= i < keys.len() ==> measures(
                            similarity,
                            self@.vectors[self@.order[i]],
                            #[trigger] keys[i],
                        )
                    &&& ranked_by(r@, self@, keys, top_k as nat)
                },
    {
        let n = self.embeddings.len();
        let mut keys: Vec<i64> = Vec::new();
        let mut k: usize = 0;
        while k < n
            invariant
                k <= n,
                n == self.embeddings.keys().len(),
                self.wf(),
                forall|v: &[T]| #[trigger] similarity.requires((v,)),
                keys@.len() == k,
                forall|i: int|
                    0 <= i < k ==> measures(
                        similarity,
                        self@.vectors[self@.order[i]],
                        #[trigger] keys@[i],
                    ),
            decreases n - k,
        {
            let v = self.embeddings.value_at(k).as_slice();
            let key: i64 = similarity(v);
            assert(v@ == self@.vectors[self@.order[k as int]]);
            assert(measures(similarity, self@.vectors[self@.order[k as int]], key));
            keys.push(key);
            k = k + 1;
        }
        let ranking = search_utils::top_ranked(&keys, top_k);
        let mut r: Vec<(String, i64)> = Vec::new();
        let mut j: usize = 0;
        while j < ranking.len()
            invariant
                j <= ranking.len(),
                n == self.embeddings.keys().len(),
                n == keys@.len(),
                self.wf(),
                search_utils::in_rank_order(keys@, ranking@, keys@.len()),
                r@.len() == j,
                forall|i: int|
                    0 <= i < j ==> (#[trigger] r@[i]).0@ == self@.order[ranking@[i] as int]
                        && r@[i].1 == keys@[ranking@[i] as int],
            decreases ranking.len() - j,
        {
            let at = ranking[j];
            r.push((self.embeddings.key_at(at).clone(), keys[at]));
            j = j + 1;
        }
        assert(ranked_by(r@, self@, keys@, top_k as nat)) by {
            assert(ranking@.len() == r@.len());
        }
        r
    }

    /// Inserts the vectors of a batch, the first one for the first path and so on.
    pub fn insert_all(&mut self, paths: &Vec<String>, vectors: Vec<Vec<T>>) where T: Copy
        requires
            old(self).wf(),
        ensures
            final(self).wf(),
            final(self)@.dim == old(self)@.dim,
            final(self)@.vectors == with_vectors(
                old(self)@.vectors,
                old(self)@.dim,
                text::strings(paths@),
                vector_views(vectors@),
                if paths@.len() <= vectors@.len() {
                    paths@.len()
                } else {
                    vectors@.len()
                },
            ),
    {
        let ghost before = self@;
        let ghost ps = text::strings(paths@);
        let ghost vs = vector_views(vectors@);
        let n: usize = if paths.len() <= vectors.len() {
            paths.len()
        } else {
            vectors.len()
        };
        let mut k: usize = 0;
        while k < n
            invariant
                k <= n,
                n <= paths@.len(),
                n <= vectors@.len(),
                self.wf(),
                ps == text::strings(paths@),
                vs == vector_views(vectors@),
                self@.dim == before.dim,
                self@.vectors == with_vectors(before.vectors, before.dim, ps, vs, k as nat),
            decreases n - k,
        {
            let v = copy_vector(&vectors[k]);
            assert(ps[k as int] == paths@[k as int]@);
            assert(vs[k as int] == v@);
            self.insert(paths[k].clone(), v);
            k = k + 1;
        }
    }

    /// What is written to a cache: all paths with their vectors.
    pub fn entries(&self) -> (r: Vec<(String, Vec<T>)>) where T: Copy
        requires
            self.wf(),
        ensures
            entry_paths(r@) == self@.order,
            forall|i: int|
                0 <= i < r@.len() ==> (#[trigger] r@[i]).1@ == self@.vectors[self@.order[i]],
    {
        let n = self.embeddings.len();
        let mut r: Vec<(String, Vec<T>)> = Vec::new();
        let mut k: usize = 0;
        while k < n
            invariant
                k <= n,
                n == self.embeddings.keys().len(),
                self.wf(),
                r@.len() == k,
                forall|i: int|
                    0 <= i < k ==> (#[trigger] r@[i]).0@ == self@.order[i] && r@[i].1@
                        == self@.vectors[self@.order[i]],
            decreases n - k,
        {
            let key = self.embeddings.key_at(k).clone();
            let v = copy_vector(self.embeddings.value_at(k));
            r.push((key, v));
            k = k + 1;
        }
        assert(entry_paths(r@) =~= self@.order);
        r
    }

    /// Makes a store of what was read from a cache. Entries of another dimension are skipped.
    pub fn from_entries(dim: usize, entries: Vec<(String, Vec<T>)>) -> (r: Self) where T: Copy
        ensures
            r.wf(),
            r@.dim == dim,
            r@.vectors == with_vectors(
                Map::<Seq<char>, Seq<T>>::empty(),
                dim as nat,
                entry_paths(entries@),
                entry_vectors(entries@),
                entries@.len(),
            ),
    {
        let mut r: EmbeddingStore<T> = EmbeddingStore::new(dim);
        let ghost ps = entry_paths(entries@);
        let ghost vs = entry_vectors(entries@);
        let mut k: usize = 0;
        while k < entries.len()
            invariant
                k <= entries.len(),
                r.wf(),
                ps == entry_paths(entries@),
                vs == entry_vectors(entries@),
                r@.dim == dim,
                r@.vectors == with_vectors(
                    Map::<Seq<char>, Seq<T>>::empty(),
                    dim as nat,
                    ps,
                    vs,
                    k as nat,
                ),
            decreases entries.len() - k,
        {
            let v = copy_vector(&entries[k].1);
            assert(ps[k as int] == entries@[k as int].0@);
            assert(vs[k as int] == v@);
            r.insert(entries[k].0.clone(), v);
            k = k + 1;
        }
        r
    }

    /// Whether a store that was read from a cache can be used: it has the dimension of the model
    /// and as many embeddings as there are notes.
    pub fn is_current(&self, dim: usize, notes: usize) -> (r: bool)
        requires
            self.wf(),
        ensures
            r == (self@.dim == dim && self@.vectors.len() == notes),
    {
        self.dim == dim && self.len() == notes
    }
}

/// Copies a vector.
fn copy_vector<T: Copy>(v: &Vec<T>) -> (r: Vec<T>)
    ensures
        r@ == v@,
{
    let mut r: Vec<T> = Vec::new();
    let mut i: usize = 0;
    while i < v.len()
        invariant
            i <= v.len(),
            r@ == v@.take(i as int),
        decreases v.len() - i,
    {
        r.push(v[i]);
        i = i + 1;
        assert(v@.take(i as int) =~= v@.take(i - 1).push(v@[i - 1]));
    }
    assert(v@.take(i as int) =~= v@);
    r
}

proof fn lemma_with_vectors<T>(v: StoreView<T>, vs: Seq<Seq<T>>, k: nat)
    requires
        k <= v.order.len(),
        vs.len() == v.order.len(),
        v.order.no_duplicates(),
        forall|i: int|
            0 <= i < vs.len() ==> v.vectors.contains_key(#[trigger] v.order[i]) && vs[i]
                == v.vectors[v.order[i]] && vs[i].len() == v.dim && path::is_tidy(v.order[i]),
    ensures
        ({
            let all = with_vectors(Map::<Seq<char>, Seq<T>>::empty(), v.dim, v.order, vs, k);
            &&& forall|i: int| 0 <= i < k ==> all.contains_key(#[trigger] v.order[i])
            &&& forall|p: Seq<char>| #[trigger]
                all.contains_key(p) ==> v.vectors.contains_key(p) && all[p] == v.vectors[p]
        }),
    decreases k,
{
    let all = with_vectors(Map::<Seq<char>, Seq<T>>::empty(), v.dim, v.order, vs, k);
    if k > 0 {
        let less = with_vectors(
            Map::<Seq<char>, Seq<T>>::empty(),
            v.dim,
            v.order,
            vs,
            (k - 1) as nat,
        );
        lemma_with_vectors(v, vs, (k - 1) as nat);
        let at = v.order[k - 1];
        assert(v.vectors.contains_key(at) && vs[k - 1] == v.vectors[at]);
        assert(all == less.insert(at, vs[k - 1]));
        assert forall|p: Seq<char>| #[trigger] all.contains_key(p) implies v.vectors.contains_key(p)
            && all[p] == v.vectors[p] by {
            if p != at {
                assert(less.contains_key(p));
            }
        }
    } else {
        assert(all == Map::<Seq<char>, Seq<T>>::empty());
    }
}

/// A store that was saved reads back as it was: making a store of the entries of another one
/// gives the same vectors.
pub proof fn law_saved_store_reads_back<T>(v: StoreView<T>, entries: Seq<(String, Vec<T>)>)
    requires
        v.order.no_duplicates(),
        forall|p: Seq<char>| #[trigger] v.vectors.contains_key(p) <==> v.order.contains(p),
        forall|p: Seq<char>| #[trigger]
            v.vectors.contains_key(p) ==> v.vectors[p].len() == v.dim && path::is_tidy(p),
        entry_paths(entries) == v.order,
        forall|i: int|
            0 <= i < entries.len() ==> (#[trigger] entries[i]).1@ == v.vectors[v.order[i]],
    ensures
        with_vectors(
            Map::<Seq<char>, Seq<T>>::empty(),
            v.dim,
            entry_paths(entries),
            entry_vectors(entries),
            entries.len(),
        ) == v.vectors,
{
    let vs = entry_vectors(entries);
    let n = entries.len();
    assert(entry_paths(entries).len() == n);
    assert forall|i: int| 0 <= i < vs.len() implies v.vectors.contains_key(#[trigger] v.order[i])
        && vs[i] == v.vectors[v.order[i]] && vs[i].len() == v.dim && path::is_tidy(v.order[i]) by {
        let at = v.order[i];
        assert(v.order.contains(at));
        assert(v.vectors.contains_key(at));
        assert(entries[i].1@ == vs[i]);
        assert(vs[i] == v.vectors[at]);
        assert(v.vectors[at].len() == v.dim);
    }
    lemma_with_vectors(v, vs, n);
    let all = with_vectors(Map::<Seq<char>, Seq<T>>::empty(), v.dim, v.order, vs, n);
    assert forall|p: Seq<char>| v.vectors.contains_key(p) implies #[trigger] all.contains_key(
        p,
    ) by {
        assert(v.order.contains(p));
        let i = choose|i: int| 0 <= i < v.order.len() && v.order[i] == p;
        assert(all.contains_key(v.order[i]));
    }
    assert(all =~= v.vectors);
}

// ---------------------------------------------------------------------------
// Tasks
// ---------------------------------------------------------------------------

/// The number of the latest embedding task of each note. All spellings of a path are the same
/// note.
pub struct EmbeddingTasks {
    generations: Table<u64>,
}

impl View for EmbeddingTasks {
    type V = Map<Seq<char>, u64>;

    closed spec fn view(&self) -> Map<Seq<char>, u64> {
        self.generations@
    }
}

/// The number of the next task of a note.
pub open spec fn next_generation(tasks: Map<Seq<char>, u64>, p: Seq<char>) -> u64 {
    if tasks.contains_key(p) {
        tasks[p].wrapping_add(1)
    } else {
        1
    }
}

/// Whether the result of a task may be stored: it is the latest one of its note, and the note is
/// still indexed.
pub open spec fn may_commit(
    tasks: Map<Seq<char>, u64>,
    p: Seq<char>,
    generation: u64,
    indexed: bool,
) -> bool {
    tasks.contains_key(p) && tasks[p] == generation && indexed
}

impl EmbeddingTasks {
    /// The table is well-formed.
    pub closed spec fn wf(&self) -> bool {
        self.generations.wf()
    }

    /// No task has been started.
    pub fn new() -> (r: Self)
        ensures
            r.wf(),
            r@ == Map::<Seq<char>, u64>::empty(),
    {
        EmbeddingTasks { generations: Table::new() }
    }

    /// Starts a task for a note and returns its number.
    pub fn next_embedding_generation(&mut self, path: &str) -> (r: u64)
        requires
            old(self).wf(),
        ensures
            final(self).wf(),
            r == next_generation(old(self)@, path::tidy(path@)),
            final(self)@ == old(self)@.insert(path::tidy(path@), r),
    {
        let path = path::tidied(path);
        let next: u64 = match self.generations.get(&path) {
            Some(n) => n.wrapping_add(1),
            None => 1,
        };
        self.generations.insert(path, next);
        next
    }

    /// The number of the latest task of a note.
    pub fn current_embedding_generation(&self, path: &str) -> (r: Option<u64>)
        requires
            self.wf(),
        ensures
            match r {
                Some(n) => self@.contains_key(path::tidy(path@)) && n == self@[path::tidy(path@)],
                None => !self@.contains_key(path::tidy(path@)),
            },
    {
        match self.generations.get(&path::tidied(path)) {
            Some(n) => Some(*n),
            None => None,
        }
    }

    /// Forgets the tasks of a note.
    pub fn clear_embedding_generation(&mut self, path: &str)
        requires
            old(self).wf(),
        ensures
            final(self).wf(),
            final(self)@ == old(self)@.remove(path::tidy(path@)),
    {
        let _ = self.generations.remove(&path::tidied(path));
    }

    /// Whether the result of a task may be stored.
    pub fn should_commit_embedding_task(&self, path: &str, generation: u64, indexed: bool) -> (r:
        bool)
        requires
            self.wf(),
        ensures
            r == may_commit(self@, path::tidy(path@), generation, indexed),
    {
        match self.current_embedding_generation(path) {
            Some(n) => n == generation && indexed,
            None => false,
        }
    }
}

/// The result of a task is stored as long as no other task of the note was started and the note
/// is indexed; after that it never is, nor after the tasks of the note were forgotten. Tasks of
/// other notes make no difference.
pub proof fn law_only_the_latest_task_commits(
    tasks: Map<Seq<char>, u64>,
    p: Seq<char>,
    q: Seq<char>,
    indexed: bool,
)
    requires
        q != p,
    ensures
        ({
            let first = next_generation(tasks, p);
            let started = tasks.insert(p, first);
            let restarted = started.insert(p, next_generation(started, p));
            &&& may_commit(started, p, first, indexed) == indexed
            &&& !may_commit(restarted, p, first, indexed)
            &&& !may_commit(started.remove(p), p, first, indexed)
            &&& may_commit(started.insert(q, next_generation(started, q)), p, first, indexed)
                == indexed
            &&& may_commit(started.remove(q), p, first, indexed) == indexed
        }),
{
}

// ---------------------------------------------------------------------------
// Provider and settings
// ---------------------------------------------------------------------------

/// Selects the backend: the one that is asked for, else the local one where it is available,
/// else the API.
pub fn resolve_provider(
    explicit: Option<EmbeddingProvider>,
    has_local: bool,
    has_api: bool,
) -> (r: EmbeddingProvider)
    requires
        explicit is Some || has_local || has_api,
    ensures
        r == match explicit {
            Some(p) => p,
            None => if has_local {
                EmbeddingProvider::Local
            } else {
                EmbeddingProvider::Api
            },
        },
{
    match explicit {
        Some(p) => p,
        None => if has_local {
            EmbeddingProvider::Local
        } else {
            EmbeddingProvider::Api
        },
    }
}

/// What a variable says: its text without white space around it, if anything is left.
pub open spec fn setting(value: Option<Seq<char>>) -> Option<Seq<char>> {
    match value {
        Some(v) => if text::trim(v).len() > 0 {
            Some(text::trim(v))
        } else {
            None
        },
        None => None,
    }
}

/// What a variable says, or else another one.
pub open spec fn setting_or(primary: Option<Seq<char>>, fallback: Option<Seq<char>>) -> Option<
    Seq<char>,
> {
    match setting(primary) {
        Some(v) => Some(v),
        None => setting(fallback),
    }
}

/// What a variable says.
fn read_setting(value: Option<&str>) -> (r: Option<String>)
    ensures
        crate::models::option_text(r) == setting(exclude::option_str(value)),
{
    match value {
        Some(v) => {
            let chars = text::to_chars(v);
            let t = text::trimmed(&chars);
            if t.len() > 0 {
                Some(text::from_chars(t))
            } else {
                None
            }
        },
        None => None,
    }
}

/// What a variable says, or else another one, given the values of both.
pub fn read_env_with_fallback(primary: Option<&str>, fallback: Option<&str>) -> (r: Option<String>)
    ensures
        crate::models::option_text(r) == setting_or(exclude::option_str(primary), exclude::option_str(fallback)),
{
    match read_setting(primary) {
        Some(v) => Some(v),
        None => read_setting(fallback),
    }
}

/// The number in a variable, given its value.
pub fn parse_usize_env(value: Option<&str>) -> (r: Option<usize>)
    ensures
        match value {
            Some(v) => match text::unsigned_value(text::trim(v@)) {
                Some(n) => if n <= usize::MAX {
                    r == Some(n as usize)
                } else {
                    r is None
                },
                None => r is None,
            },
            None => r is None,
        },
{
    match value {
        Some(v) => {
            let chars = text::to_chars(v);
            match text::parse_unsigned(text::trimmed(&chars), usize::MAX as u64) {
                Some(n) => Some(n as usize),
                None => None,
            }
        },
        None => None,
    }
}

/// Whether a variable switches the verification of certificates off.
pub fn is_switched_off(value: Option<&str>) -> (r: bool)
    ensures
        r == match value {
            Some(v) => text::eq_ignore_ascii_case(v@, "false"@) || v@ == "0"@,
            None => false,
        },
{
    match value {
        Some(v) => {
            let chars = text::to_chars(v);
            let off = text::to_chars("false");
            text::same_ignore_ascii_case(&chars, &off) || text::same_str(v, "0")
        },
        None => false,
    }
}

/// The values of the variables that the API backend reads.
pub struct ApiVariables<'a> {
    pub api_key: Option<&'a str>,
    pub openai_key: Option<&'a str>,
    pub api_base: Option<&'a str>,
    pub openai_base: Option<&'a str>,
    pub api_model: Option<&'a str>,
    pub openai_model: Option<&'a str>,
    pub dim: Option<&'a str>,
}

/// The settings of the API backend.
#[derive(Debug)]
pub struct ApiSettings {
    pub api_key: String,
    pub base_url: String,
    pub model: String,
    /// The dimension, if it need not be asked of the API.
    pub dim: Option<usize>,
}

/// A setting, or what stands for it.
pub open spec fn or_default(value: Option<Seq<char>>, default: Seq<char>) -> Seq<char> {
    match value {
        Some(v) => v,
        None => default,
    }
}

/// Reads the settings of the API backend. A key must be set; the other settings have defaults.
pub fn api_settings(vars: &ApiVariables<'_>, model_name: &str) -> (r: Result<
    ApiSettings,
    VaultError,
>)
    ensures
        match setting_or(exclude::option_str(vars.api_key), exclude::option_str(vars.openai_key)) {
            Some(key) => {
                &&& r matches Ok(s) && s.api_key@ == key && s.base_url@ == or_default(
                    setting_or(exclude::option_str(vars.api_base), exclude::option_str(vars.openai_base)),
                    "https://api.openai.com/v1"@,
                ) && s.model@ == or_default(
                    setting_or(exclude::option_str(vars.api_model), exclude::option_str(vars.openai_model)),
                    model_name@,
                ) && match vars.dim {
                    Some(d) => match text::unsigned_value(text::trim(d@)) {
                        Some(n) => if n <= usize::MAX {
                            s.dim == Some(n as usize)
                        } else {
                            s.dim is None
                        },
                        None => s.dim is None,
                    },
                    None => s.dim is None,
                }
            },
            None => r matches Err(e) && e@ == ErrorView::Embedding(
                "API key required: set OBSIDIAN_EMBEDDING_API_KEY or OPENAI_API_KEY"@,
            ),
        },
{
    let api_key = match read_env_with_fallback(vars.api_key, vars.openai_key) {
        Some(k) => k,
        None => {
            return Err(
                VaultError::Embedding(
                    "API key required: set OBSIDIAN_EMBEDDING_API_KEY or OPENAI_API_KEY".to_owned(),
                ),
            );
        },
    };
    let base_url = match read_env_with_fallback(vars.api_base, vars.openai_base) {
        Some(b) => b,
        None => "https://api.openai.com/v1".to_owned(),
    };
    let model = match read_env_with_fallback(vars.api_model, vars.openai_model) {
        Some(m) => m,
        None => model_name.to_owned(),
    };
    Ok(ApiSettings { api_key, base_url, model, dim: parse_usize_env(vars.dim) })
}

// ---------------------------------------------------------------------------
// Requests and responses
// ---------------------------------------------------------------------------

/// A text without the slashes at its end.
pub open spec fn without_slashes(s: Seq<char>) -> Seq<char>
    decreases s.len(),
{
    if s.len() > 0 && s.last() == '/' {
        without_slashes(s.drop_last())
    } else {
        s
    }
}

/// The address to which texts are sent for embedding.
pub fn embeddings_url(base_url: &str) -> (r: String)
    ensures
        r@ == without_slashes(base_url@) + "/embeddings"@,
{
    let chars = text::to_chars(base_url);
    let mut n: usize = chars.len();
    assert(chars@.take(n as int) =~= chars@);
    while n > 0 && chars[n - 1] == '/'
        invariant
            n <= chars.len(),
            chars@ == base_url@,
            without_slashes(base_url@) == without_slashes(chars@.take(n as int)),
        ensures
            n <= chars.len(),
            without_slashes(base_url@) == chars@.take(n as int),
        decreases n,
    {
        assert(chars@.take(n as int).drop_last() =~= chars@.take(n - 1));
        n = n - 1;
    }
    let kept = vstd::slice::slice_subrange(&chars, 0, n);
    assert(kept@ =~= chars@.take(n as int));
    let mut r = text::from_chars(kept);
    r.push_str("/embeddings");
    r
}

/// How often a request that was refused for its rate is sent again.
pub const MAX_RETRIES: u8 = 3;

/// The longest time to wait before a request is sent again, in seconds.
pub const MAX_WAIT: u64 = 30;

/// What to do after the API has answered.
#[derive(Clone, Copy, Debug, PartialEq, Eq, Structural)]
pub enum ApiStep {
    /// Send the request again after so many seconds; it is then this attempt.
    Retry { wait: u64, attempt: u8 },
    /// Read the body as the response.
    Read,
    /// Give up with the status and body as error.
    Fail,
}

/// How long to wait: as long as the server says, else longer from attempt to attempt, but never
/// longer than the limit.
pub open spec fn waiting_time(retry_after: Option<Seq<char>>, attempt: u8) -> u64 {
    let doubled: u64 = if attempt == 0 {
        1
    } else if attempt == 1 {
        2
    } else {
        4
    };
    let asked: u64 = match retry_after {
        Some(v) => match text::unsigned_value(v) {
            Some(n) => if n <= u64::MAX {
                n as u64
            } else {
                doubled
            },
            None => doubled,
        },
        None => doubled,
    };
    if asked < MAX_WAIT {
        asked
    } else {
        MAX_WAIT
    }
}

/// What to do after the API has answered.
pub open spec fn step_after(status: u16, retry_after: Option<Seq<char>>, attempt: u8) -> ApiStep {
    if status == 429 && attempt < MAX_RETRIES {
        ApiStep::Retry { wait: waiting_time(retry_after, attempt), attempt: (attempt + 1) as u8 }
    } else if 200 <= status < 300 {
        ApiStep::Read
    } else {
        ApiStep::Fail
    }
}

/// Decides what to do after the API has answered with a status and, where it has one, a
/// `retry-after` header.
pub fn after_response(status: u16, retry_after: Option<&str>, attempt: u8) -> (r: ApiStep)
    ensures
        r == step_after(status, exclude::option_str(retry_after), attempt),
{
    if status == 429 && attempt < MAX_RETRIES {
        let doubled: u64 = if attempt == 0 {
            1
        } else if attempt == 1 {
            2
        } else {
            4
        };
        let asked: u64 = match retry_after {
            Some(v) => {
                let chars = text::to_chars(v);
                match text::parse_unsigned(&chars, u64::MAX) {
                    Some(n) => n,
                    None => doubled,
                }
            },
            None => doubled,
        };
        let wait: u64 = if asked < MAX_WAIT {
            asked
        } else {
            MAX_WAIT
        };
        ApiStep::Retry { wait, attempt: attempt + 1 }
    } else if 200 <= status && status < 300 {
        ApiStep::Read
    } else {
        ApiStep::Fail
    }
}

/// A request is sent again at most three times, after at most thirty seconds each, and only
/// where the rate was refused.
pub proof fn law_retries_are_bounded(status: u16, retry_after: Option<Seq<char>>, attempt: u8)
    ensures
        match step_after(status, retry_after, attempt) {
            ApiStep::Retry { wait, attempt: next } => status == 429 && wait <= 30 && next
                == attempt + 1 && next <= 3,
            _ => true,
        },
        step_after(status, retry_after, 3) == step_after(status, None, 3),
        !(step_after(status, retry_after, 3) is Retry),
{
}

/// The number by which an item of a response is sorted: its `index`, else its place.
pub open spec fn item_index(item: JsonView, place: nat) -> nat {
    match frontmatter::field_of(item, "index"@) {
        Some(JsonView::Number(s)) => match text::digits_value(s) {
            Some(n) => n,
            None => place,
        },
        _ => place,
    }
}

/// Whether all values of a list are numbers.
pub open spec fn all_numbers(items: Seq<JsonView>) -> bool {
    forall|i: int| 0 <= i < items.len() ==> #[trigger] items[i] is Number
}

/// The vector of an item of a response, or what is wrong with it.
pub open spec fn item_vector(item: JsonView) -> Result<Seq<JsonView>, ErrorView> {
    match frontmatter::field_of(item, "embedding"@) {
        Some(JsonView::Array(items)) => if all_numbers(items) {
            Ok(items)
        } else {
            Err(ErrorView::Embedding("non-numeric value in embedding vector"@))
        },
        _ => Err(ErrorView::Embedding("missing 'embedding' array in response item"@)),
    }
}

/// A list with an item behind all that have no greater number.
pub open spec fn with_item(list: Seq<(nat, Seq<JsonView>)>, n: nat, v: Seq<JsonView>) -> Seq<
    (nat, Seq<JsonView>),
>
    decreases list.len(),
{
    if list.len() > 0 && list.last().0 > n {
        with_item(list.drop_last(), n, v).push(list.last())
    } else {
        list.push((n, v))
    }
}

/// The vectors of the first `k` items of a response, sorted by their numbers.
pub open spec fn sorted_items(data: Seq<JsonView>, k: nat) -> Result<
    Seq<(nat, Seq<JsonView>)>,
    ErrorView,
>
    decreases k,
{
    if k == 0 {
        Ok(Seq::empty())
    } else {
        match sorted_items(data, (k - 1) as nat) {
            Ok(list) => match item_vector(data[k - 1]) {
                Ok(v) => Ok(with_item(list, item_index(data[k - 1], (k - 1) as nat), v)),
                Err(e) => Err(e),
            },
            Err(e) => Err(e),
        }
    }
}

/// The items of a response, sorted, or what is wrong with it.
pub open spec fn response_items(resp: JsonView) -> Result<Seq<(nat, Seq<JsonView>)>, ErrorView> {
    match frontmatter::field_of(resp, "data"@) {
        Some(JsonView::Array(data)) => sorted_items(data, data.len()),
        _ => Err(ErrorView::Embedding("missing 'data' array in API response"@)),
    }
}

/// The values in a vector of references.
pub open spec fn number_views(v: Seq<&serde_json::Value>) -> Seq<JsonView> {
    v.map_values(|x: &serde_json::Value| json::json_view(*x))
}

/// Numbered vectors.
pub open spec fn numbered_views(v: Seq<(u64, Vec<&serde_json::Value>)>) -> Seq<
    (nat, Seq<JsonView>),
> {
    v.map_values(|x: (u64, Vec<&serde_json::Value>)| (x.0 as nat, number_views(x.1@)))
}

/// Collects the numbers of an array.
fn read_vector<'a>(items: &'a Vec<serde_json::Value>) -> (r: Option<Vec<&'a serde_json::Value>>)
    ensures
        match r {
            Some(v) => all_numbers(json::json_views(items@)) && number_views(v@)
                == json::json_views(items@),
            None => !all_numbers(json::json_views(items@)),
        },
{
    let ghost all = json::json_views(items@);
    let mut r: Vec<&'a serde_json::Value> = Vec::new();
    let mut k: usize = 0;
    while k < items.len()
        invariant
            k <= items.len(),
            all == json::json_views(items@),
            r@.len() == k,
            forall|i: int| 0 <= i < k ==> json::json_view(*(#[trigger] r@[i])) == all[i],
            forall|i: int| 0 <= i < k ==> #[trigger] all[i] is Number,
        decreases items.len() - k,
    {
        let item = &items[k];
        assert(all[k as int] == json::json_view(*item));
        match json::json_kind(item) {
            JsonKind::Number => {
                r.push(item);
            },
            _ => {
                return None;
            },
        }
        k = k + 1;
    }
    assert(number_views(r@) =~= all);
    Some(r)
}

/// Parses an OpenAI-compatible embedding response into vectors of numbers.
///
/// Items are sorted by the `index` field where it is there, else they stay in their place.
pub fn parse_embedding_response<'a>(resp: &'a serde_json::Value) -> (r: Result<
    Vec<Vec<&'a serde_json::Value>>,
    VaultError,
>)
    ensures
        match r {
            Ok(vectors) => match response_items(json::json_view(*resp)) {
                Ok(list) => vectors@.len() == list.len() && forall|i: int|
                    0 <= i < list.len() ==> number_views((#[trigger] vectors@[i])@) == list[i].1,
                Err(_) => false,
            },
            Err(e) => response_items(json::json_view(*resp)) == Err::<
                Seq<(nat, Seq<JsonView>)>,
                ErrorView,
            >(e@),
        },
{
    let data: &'a Vec<serde_json::Value> = match frontmatter::get_field(resp, "data") {
        Some(v) => match json::json_kind(v) {
            JsonKind::Array(items) => items,
            _ => {
                return Err(
                    VaultError::Embedding("missing 'data' array in API response".to_owned()),
                );
            },
        },
        None => {
            return Err(VaultError::Embedding("missing 'data' array in API response".to_owned()));
        },
    };
    let ghost all = json::json_views(data@);
    let ghost n = all.len();
    let mut numbered: Vec<(u64, Vec<&'a serde_json::Value>)> = Vec::new();
    assert(numbered_views(numbered@) =~= Seq::<(nat, Seq<JsonView>)>::empty());
    let mut k: usize = 0;
    while k < data.len()
        invariant
            k <= data.len(),
            all == json::json_views(data@),
            n == all.len(),
            response_items(json::json_view(*resp)) == sorted_items(all, n),
            sorted_items(all, k as nat) == Ok::<Seq<(nat, Seq<JsonView>)>, ErrorView>(
                numbered_views(numbered@),
            ),
        decreases data.len() - k,
    {
        let item = &data[k];
        assert(all[k as int] == json::json_view(*item));
        let index: u64 = match frontmatter::get_field(item, "index") {
            Some(v) => match json::json_as_u64(v) {
                Some(i) => i,
                None => k as u64,
            },
            None => k as u64,
        };
        assert(index == item_index(all[k as int], k as nat));
        let vector = match frontmatter::get_field(item, "embedding") {
            Some(v) => match json::json_kind(v) {
                JsonKind::Array(items) => match read_vector(items) {
                    Some(v) => v,
                    None => {
                        proof {
                            lemma_sorted_items_fail(all, (k + 1) as nat, n);
                        }
                        return Err(
                            VaultError::Embedding(
                                "non-numeric value in embedding vector".to_owned(),
                            ),
                        );
                    },
                },
                _ => {
                    proof {
                        lemma_sorted_items_fail(all, (k + 1) as nat, n);
                    }
                    return Err(
                        VaultError::Embedding(
                            "missing 'embedding' array in response item".to_owned(),
                        ),
                    );
                },
            },
            None => {
                proof {
                    lemma_sorted_items_fail(all, (k + 1) as nat, n);
                }
                return Err(
                    VaultError::Embedding("missing 'embedding' array in response item".to_owned()),
                );
            },
        };
        insert_numbered(&mut numbered, index, vector);
        k = k + 1;
    }
    let mut r: Vec<Vec<&'a serde_json::Value>> = Vec::new();
    let ghost list = numbered_views(numbered@);
    let mut j: usize = 0;
    while j < numbered.len()
        invariant
            j <= numbered.len(),
            list == numbered_views(numbered@),
            r@.len() == j,
            forall|i: int| 0 <= i < j ==> number_views((#[trigger] r@[i])@) == list[i].1,
        decreases numbered.len() - j,
    {
        let v = copy_vector(&numbered[j].1);
        assert(number_views(v@) == list[j as int].1);
        r.push(v);
        j = j + 1;
    }
    Ok(r)
}

proof fn lemma_sorted_items_fail(data: Seq<JsonView>, k: nat, n: nat)
    requires
        k <= n,
        sorted_items(data, k) is Err,
    ensures
        sorted_items(data, n) == sorted_items(data, k),
    decreases n - k,
{
    if k < n {
        lemma_sorted_items_fail(data, k, (n - 1) as nat);
    }
}

proof fn lemma_with_item(list: Seq<(nat, Seq<JsonView>)>, n: nat, v: Seq<JsonView>, at: int)
    requires
        0 <= at <= list.len(),
        forall|i: int| at <= i < list.len() ==> (#[trigger] list[i]).0 > n,
        at > 0 ==> list[at - 1].0 <= n,
    ensures
        with_item(list, n, v) == list.insert(at, (n, v)),
    decreases list.len(),
{
    if at < list.len() {
        let d = list.drop_last();
        lemma_with_item(d, n, v, at);
        assert(list.last().0 > n);
        assert(d.insert(at, (n, v)).push(list.last()) =~= list.insert(at, (n, v)));
    } else {
        assert(list.insert(at, (n, v)) =~= list.push((n, v)));
    }
}

/// Inserts a vector behind all that have no greater number.
fn insert_numbered<'a>(
    list: &mut Vec<(u64, Vec<&'a serde_json::Value>)>,
    n: u64,
    v: Vec<&'a serde_json::Value>,
)
    ensures
        numbered_views(final(list)@) == with_item(
            numbered_views(old(list)@),
            n as nat,
            number_views(v@),
        ),
{
    let ghost before = numbered_views(list@);
    let mut at: usize = list.len();
    while at > 0 && list[at - 1].0 > n
        invariant
            at <= list.len(),
            before == numbered_views(list@),
            forall|i: int| at <= i < list@.len() ==> (#[trigger] before[i]).0 > n,
        decreases at,
    {
        at = at - 1;
    }
    proof {
        if at > 0 {
            assert(before[at - 1].0 == list@[at - 1].0);
        }
        lemma_with_item(before, n as nat, number_views(v@), at as int);
    }
    let ghost old_list = list@;
    let ghost view = number_views(v@);
    list.insert(at, (n, v));
    assert(numbered_views(list@) =~= before.insert(at as int, (n as nat, view)));
}

proof fn lemma_with_item_sorted(list: Seq<(nat, Seq<JsonView>)>, n: nat, v: Seq<JsonView>)
    requires
        forall|i: int, j: int| 0 <= i < j < list.len() ==> list[i].0 <= list[j].0,
    ensures
        forall|i: int, j: int|
            0 <= i < j < with_item(list, n, v).len() ==> with_item(list, n, v)[i].0 <= with_item(
                list,
                n,
                v,
            )[j].0,
        with_item(list, n, v).len() == list.len() + 1,
        forall|i: int|
            0 <= i < with_item(list, n, v).len() ==> (#[trigger] with_item(list, n, v)[i]).0 <= n
                || (list.len() > 0 && with_item(list, n, v)[i].0 <= list.last().0),
    decreases list.len(),
{
    if list.len() > 0 && list.last().0 > n {
        lemma_with_item_sorted(list.drop_last(), n, v);
    }
}

/// The vectors of a response come sorted by their numbers, one for each item.
pub proof fn law_response_is_sorted(data: Seq<JsonView>, k: nat)
    requires
        k <= data.len(),
    ensures
        match sorted_items(data, k) {
            Ok(list) => list.len() == k && forall|i: int, j: int|
                0 <= i < j < list.len() ==> list[i].0 <= list[j].0,
            Err(_) => true,
        },
    decreases k,
{
    if k > 0 {
        law_response_is_sorted(data, (k - 1) as nat);
        if let Ok(list) = sorted_items(data, (k - 1) as nat) {
            if let Ok(v) = item_vector(data[k - 1]) {
                lemma_with_item_sorted(list, item_index(data[k - 1], (k - 1) as nat), v);
            }
        }
    }
}

/// The dimension that a probe of the API shows: the length of its first vector.
pub fn probed_dimension<T>(vectors: &Vec<Vec<T>>) -> (r: Result<usize, VaultError>)
    ensures
        match r {
            Ok(n) => vectors@.len() > 0 && n == vectors@[0]@.len() && n > 0,
            Err(e) => if vectors@.len() == 0 {
                e@ == ErrorView::Embedding("dimension probe returned empty result"@)
            } else {
                vectors@[0]@.len() == 0 && e@ == ErrorView::Embedding(
                    "dimension probe returned zero-length vector"@,
                )
            },
        },
{
    if vectors.len() == 0 {
        return Err(VaultError::Embedding("dimension probe returned empty result".to_owned()));
    }
    let n = vectors[0].len();
    if n == 0 {
        return Err(VaultError::Embedding("dimension probe returned zero-length vector".to_owned()));
    }
    Ok(n)
}

/// The vector of a single text: the last of what came back for it.
pub fn only_embedding<T>(vectors: Vec<Vec<T>>) -> (r: Result<Vec<T>, VaultError>)
    ensures
        match r {
            Ok(v) => vectors@.len() > 0 && v == vectors@.last(),
            Err(e) => vectors@.len() == 0 && e@ == ErrorView::Embedding(
                "embed returned empty result"@,
            ),
        },
{
    let mut vectors = vectors;
    match vectors.pop() {
        Some(v) => Ok(v),
        None => Err(VaultError::Embedding("embed returned empty result".to_owned())),
    }
}

// ---------------------------------------------------------------------------
// Cache
// ---------------------------------------------------------------------------

/// Where the embeddings of a vault are cached in its data directory.
pub open spec fn cache_path(mcp_data: Seq<char>) -> Seq<char> {
    path::joined_path(path::joined_path(mcp_data, "embeddings"@), "embeddings.bin"@)
}

/// Where the embeddings of a vault were cached before.
pub open spec fn old_cache_path(vault_root: Seq<char>) -> Seq<char> {
    path::joined_path(
        path::joined_path(path::joined_path(vault_root, ".obsidian"@), "obsidian-mcp"@),
        "embeddings.bin"@,
    )
}

/// Where the daemon caches the embeddings of a vault.
pub open spec fn daemon_path(semantic_home: Seq<char>, vault_id: Seq<char>) -> Seq<char> {
    path::joined_path(
        path::joined_path(path::joined_path(semantic_home, "vaults"@), vault_id),
        "embeddings.bin"@,
    )
}

/// Where the embeddings of a vault are cached in its data directory.
pub fn embedding_cache_path(mcp_data: &str) -> (r: String)
    ensures
        r@ == cache_path(mcp_data@),
{
    path::join_path(&path::join_path(mcp_data, "embeddings"), "embeddings.bin")
}

/// Where the embeddings of a vault were cached before.
pub fn legacy_cache_path(vault_root: &str) -> (r: String)
    ensures
        r@ == old_cache_path(vault_root@),
{
    let dir = path::join_path(&path::join_path(vault_root, ".obsidian"), "obsidian-mcp");
    path::join_path(&dir, "embeddings.bin")
}

/// Where the daemon caches the embeddings of a vault.
pub fn daemon_cache_path(semantic_home: &str, vault_id: &str) -> (r: String)
    ensures
        r@ == daemon_path(semantic_home@, vault_id@),
{
    let dir = path::join_path(&path::join_path(semantic_home, "vaults"), vault_id);
    path::join_path(&dir, "embeddings.bin")
}

/// What became of a cache from before.
#[derive(Debug)]
pub enum LegacyCacheMigration {
    NotFound,
    AlreadyPresent(String),
    Migrated(String),
}

/// The mathematical form of a [`LegacyCacheMigration`].
pub enum MigrationView {
    NotFound,
    AlreadyPresent(Seq<char>),
    Migrated(Seq<char>),
}

impl View for LegacyCacheMigration {
    type V = MigrationView;

    open spec fn view(&self) -> MigrationView {
        match *self {
            LegacyCacheMigration::NotFound => MigrationView::NotFound,
            LegacyCacheMigration::AlreadyPresent(p) => MigrationView::AlreadyPresent(p@),
            LegacyCacheMigration::Migrated(p) => MigrationView::Migrated(p@),
        }
    }
}

/// Decides where the daemon gets its cache from, given which of the files exist: it keeps the
/// one that it has, else takes the oldest place before the newer one. With the outcome comes the
/// file that is to be copied.
pub fn migrate_legacy_cache_to_daemon_store(
    vault_root: &str,
    semantic_home: &str,
    vault_id: &str,
    target_exists: bool,
    legacy_is_file: bool,
    new_is_file: bool,
) -> (r: (LegacyCacheMigration, Option<String>))
    ensures
        ({
            let target = daemon_path(semantic_home@, vault_id@);
            let source = crate::models::option_text(r.1);
            if target_exists {
                r.0@ == MigrationView::AlreadyPresent(target) && source is None
            } else if legacy_is_file {
                r.0@ == MigrationView::Migrated(target) && source == Some(
                    old_cache_path(vault_root@),
                )
            } else if new_is_file {
                r.0@ == MigrationView::Migrated(target) && source == Some(
                    cache_path(path::joined_path(vault_root@, ".obsidian-mcp"@)),
                )
            } else {
                r.0@ == MigrationView::NotFound && source is None
            }
        }),
{
    let target = daemon_cache_path(semantic_home, vault_id);
    if target_exists {
        return (LegacyCacheMigration::AlreadyPresent(target), None);
    }
    if legacy_is_file {
        (LegacyCacheMigration::Migrated(target), Some(legacy_cache_path(vault_root)))
    } else if new_is_file {
        let home = path::join_path(vault_root, ".obsidian-mcp");
        (LegacyCacheMigration::Migrated(target), Some(embedding_cache_path(&home)))
    } else {
        (LegacyCacheMigration::NotFound, None)
    }
}

// ---------------------------------------------------------------------------
// Texts
// ---------------------------------------------------------------------------

/// How many words of the body of a note are embedded.
pub const MAX_BODY_WORDS: usize = 400;

/// How many texts are embedded at once.
pub const BATCH_SIZE: usize = 64;

/// The first words of a text, with a blank between each two of them.
pub open spec fn first_words(body: Seq<char>) -> Seq<char> {
    let all = text::words(body);
    text::join(
        if all.len() <= MAX_BODY_WORDS {
            all
        } else {
            all.take(MAX_BODY_WORDS as int)
        },
        " "@,
    )
}

/// The text that is embedded for a note.
pub open spec fn embed_text(title: Seq<char>, headings: Seq<Seq<char>>, body: Seq<char>) -> Seq<
    char,
> {
    let line = text::join(headings, " | "@);
    if line.len() == 0 {
        title + "\n"@ + first_words(body)
    } else {
        title + "\n"@ + line + "\n"@ + first_words(body)
    }
}

/// Prepares the text to embed from the parts of a note: the title, a line with the headings if
/// there are any, and the first words of the body. The body comes without front matter.
pub fn prepare_embed_text(title: &str, headings: &Vec<String>, body: &str) -> (r: String)
    ensures
        r@ == embed_text(title@, text::strings(headings@), body@),
{
    let line = text::join_strings(headings, " | ");
    let line_chars = text::to_chars(&line);
    let body_chars = text::to_chars(body);
    let all = text::split_words(&body_chars);
    let ghost ws = text::texts(all@);
    assert(ws.len() == all@.len());
    let n: usize = if all.len() <= MAX_BODY_WORDS {
        all.len()
    } else {
        MAX_BODY_WORDS
    };
    let mut kept: Vec<String> = Vec::new();
    assert(text::strings(kept@) =~= ws.take(0));
    let mut k: usize = 0;
    while k < n
        invariant
            k <= n <= all.len(),
            ws == text::texts(all@),
            text::strings(kept@) == ws.take(k as int),
        decreases n - k,
    {
        let ghost before = kept@;
        kept.push(text::from_chars(&all[k]));
        k = k + 1;
        assert(ws[k - 1] == all@[k - 1]@);
        assert(text::strings(kept@) =~= text::strings(before).push(ws[k - 1]));
        assert(ws.take(k as int) =~= ws.take(k - 1).push(ws[k - 1]));
    }
    assert(n == ws.len() ==> ws.take(n as int) =~= ws);
    let words = text::join_strings(&kept, " ");
    let mut r = title.to_owned();
    r.push_str("\n");
    if line_chars.len() > 0 {
        r.push_str(&line);
        r.push_str("\n");
    }
    r.push_str(&words);
    r
}

/// The texts of headings.
pub open spec fn heading_texts(hs: Seq<Heading>) -> Seq<Seq<char>> {
    hs.map_values(|h: Heading| h.text@)
}

/// Prepares the text to embed for an indexed note with this content.
pub fn note_embed_text(meta: &NoteMetadata, content: &str) -> (r: String)
    ensures
        r@ == embed_text(
            meta.title@,
            heading_texts(meta.headings@),
            frontmatter::body_of(content@),
        ),
{
    let mut headings: Vec<String> = Vec::new();
    let mut k: usize = 0;
    while k < meta.headings.len()
        invariant
            k <= meta.headings.len(),
            headings@.len() == k,
            forall|i: int| 0 <= i < k ==> (#[trigger] headings@[i])@ == meta.headings@[i].text@,
        decreases meta.headings.len() - k,
    {
        headings.push(meta.headings[k].text.clone());
        k = k + 1;
    }
    assert(text::strings(headings@) =~= heading_texts(meta.headings@));
    prepare_embed_text(&meta.title, &headings, frontmatter::get_body(content))
}

/// The text that is embedded for a note starts with its title.
pub proof fn law_embed_text_starts_with_the_title(
    title: Seq<char>,
    headings: Seq<Seq<char>>,
    body: Seq<char>,
)
    ensures
        title.is_prefix_of(embed_text(title, headings, body)),
{
    let r = embed_text(title, headings, body);
    assert(title =~= r.subrange(0, title.len() as int));
}

/// A vector is kept under its path, however the path is written, if it has as many numbers as the
/// store holds; another vector changes nothing. All other vectors stay.
pub proof fn law_kept_vectors<T>(
    vectors: Map<Seq<char>, Seq<T>>,
    dim: nat,
    p: Seq<char>,
    q: Seq<char>,
    v: Seq<T>,
)
    ensures
        v.len() != dim ==> with_vector(vectors, dim, p, v) == vectors,
        v.len() == dim && path::same_place(p, q) ==> with_vector(
            vectors,
            dim,
            p,
            v,
        ).contains_key(path::tidy(q)) && with_vector(vectors, dim, p, v)[path::tidy(q)] == v,
        !path::same_place(p, q) ==> (with_vector(vectors, dim, p, v).contains_key(path::tidy(q))
            <==> vectors.contains_key(path::tidy(q))),
        !path::same_place(p, q) && vectors.contains_key(path::tidy(q)) ==> with_vector(
            vectors,
            dim,
            p,
            v,
        )[path::tidy(q)] == vectors[path::tidy(q)],
{
    path::law_tidy_path_is_the_path(p, q);
}

/// Of the vectors that are put into a store together the last one for a path is kept; those of
/// another size are left out, and what is not named stays.
pub proof fn law_vectors_put_in_together<T>(
    vectors: Map<Seq<char>, Seq<T>>,
    dim: nat,
    paths: Seq<Seq<char>>,
    vs: Seq<Seq<T>>,
    k: nat,
    q: Seq<char>,
    i: int,
)
    requires
        k <= paths.len(),
        k <= vs.len(),
    ensures
        ({
            let all = with_vectors(vectors, dim, paths, vs, k);
            &&& 0 <= i < k && vs[i].len() == dim && path::tidy(paths[i]) == q && (forall|j: int|
                i < j < k ==> path::tidy(#[trigger] paths[j]) != q) ==> all.contains_key(q)
                && all[q] == vs[i]
            &&& (forall|j: int|
                0 <= j < k ==> path::tidy(#[trigger] paths[j]) != q || vs[j].len() != dim) ==> (
            all.contains_key(q) <==> vectors.contains_key(q)) && all[q] == vectors[q]
        }),
    decreases k,
{
    if k > 0 {
        law_vectors_put_in_together(vectors, dim, paths, vs, (k - 1) as nat, q, i);
        if 0 <= i < k - 1 && forall|j: int| i < j < k ==> path::tidy(#[trigger] paths[j]) != q {
            assert(path::tidy(paths[k - 1]) != q);
        }
        if forall|j: int|
            0 <= j < k ==> path::tidy(#[trigger] paths[j]) != q || vs[j].len() != dim {
            assert(path::tidy(paths[k - 1]) != q || vs[k - 1].len() != dim);
        }
    }
}

/// What a query gives goes from the most similar note to the least similar one, each once, as
/// many as were asked for if there are as many; nothing that is left out is more similar.
pub proof fn law_most_similar_come_first<T>(
    results: Seq<(String, i64)>,
    v: StoreView<T>,
    keys: Seq<i64>,
    top_k: nat,
    i: int,
    j: int,
    a: int,
)
    requires
        ranked_by(results, v, keys, top_k),
        keys.len() == v.order.len(),
        keys.len() <= usize::MAX,
        v.order.no_duplicates(),
    ensures
        results.len() <= top_k,
        results.len() <= keys.len(),
        results.len() == top_k || results.len() == keys.len(),
        0 <= i < j < results.len() ==> results[i].1 >= results[j].1 && results[i].0@
            != results[j].0@,
        0 <= i < results.len() ==> exists|n: int|
            0 <= n < keys.len() && #[trigger] v.order[n] == results[i].0@ && keys[n]
                == results[i].1,
        0 <= a < keys.len() && (forall|n: int|
            0 <= n < results.len() ==> (#[trigger] results[n]).0@ != v.order[a]) && 0 <= i
            < results.len() ==> results[i].1 >= keys[a],
{
    let ranking = choose|ranking: Seq<usize>|
        {
            &&& #[trigger] ranking.len() == if top_k <= keys.len() {
                top_k
            } else {
                keys.len()
            }
            &&& search_utils::in_rank_order(keys, ranking, keys.len())
            &&& search_utils::leaves_out_only_lower(keys, ranking, keys.len())
            &&& results.len() == ranking.len()
            &&& forall|i: int|
                0 <= i < results.len() ==> (#[trigger] results[i]).0@ == v.order[ranking[i] as int]
                    && results[i].1 == keys[ranking[i] as int]
        };
    search_utils::law_ranking(keys, ranking, i, j, a);
    if 0 <= i < results.len() {
        assert(v.order[ranking[i] as int] == results[i].0@);
    }
    if 0 <= i < j < results.len() {
        assert(results[i].0@ == v.order[ranking[i] as int]);
        assert(results[j].0@ == v.order[ranking[j] as int]);
    }
    if 0 <= a < keys.len() && 0 <= i < results.len() && forall|n: int|
        0 <= n < results.len() ==> (#[trigger] results[n]).0@ != v.order[a] {
        if ranking.contains(a as usize) {
            let n = choose|n: int| 0 <= n < ranking.len() && ranking[n] == a as usize;
            assert(results[n].0@ == v.order[ranking[n] as int]);
        }
    }
}

/// A setting is the text without the white space around it; one that is blank is not set, and
/// the second place is asked just where the first one has nothing.
pub proof fn law_settings(a: Seq<char>, b: Option<Seq<char>>, default: Seq<char>)
    ensures
        text::trim(a).len() > 0 ==> setting_or(Some(a), b) == Some(text::trim(a)),
        text::trim(a).len() == 0 ==> setting_or(Some(a), b) == setting_or(None, b),
        setting_or(None, Some(a)) == setting_or(Some(a), None),
        setting_or(None, None) is None,
        text::trim(a).len() == 0 ==> setting_or(None, Some(a)) is None,
        or_default(setting_or(Some(a), b), default) == if text::trim(a).len() > 0 {
            text::trim(a)
        } else {
            or_default(setting_or(None, b), default)
        },
        or_default(None, default) == default,
{
}

/// Slashes at the end of an address do not count, however many there are, and nothing else is
/// taken away.
pub proof fn law_slashes_at_the_end(s: Seq<char>)
    ensures
        without_slashes(s + seq!['/']) == without_slashes(s),
        s.len() > 0 && s.last() != '/' ==> without_slashes(s) == s,
        without_slashes(s).len() > 0 ==> without_slashes(s).last() != '/',
        without_slashes(s).is_prefix_of(s),
        forall|i: int| without_slashes(s).len() <= i < s.len() ==> #[trigger] s[i] == '/',
    decreases s.len(),
{
    assert((s + seq!['/']).drop_last() =~= s);
    if s.len() > 0 && s.last() == '/' {
        let d = s.drop_last();
        law_slashes_at_the_end(d);
        assert forall|i: int| without_slashes(s).len() <= i < s.len() implies #[trigger] s[i]
            == '/' by {
            if i < d.len() {
                assert(d[i] == s[i]);
            }
        }
    }
}

/// The wait before another try is what the service asks for, or else one second that doubles with
/// each try, and never more than half a minute.
pub proof fn law_waits(asked: Seq<char>, n: nat, attempt: u8)
    ensures
        waiting_time(None, 0) == 1,
        attempt < 2 ==> waiting_time(None, (attempt + 1) as u8) == 2 * waiting_time(None, attempt),
        text::unsigned_value(asked) == Some(n) && n <= 30 ==> waiting_time(Some(asked), attempt)
            == n,
        text::unsigned_value(asked) == Some(n) && 30 <= n <= u64::MAX ==> waiting_time(
            Some(asked),
            attempt,
        ) == 30,
        text::unsigned_value(asked) is None ==> waiting_time(Some(asked), attempt) == waiting_time(
            None,
            attempt,
        ),
{
}

/// A request that comes too soon is made again up to three times; an answer of success is read,
/// and any other answer is a failure.
pub proof fn law_answers_of_the_service(status: u16, retry_after: Option<Seq<char>>, attempt: u8)
    ensures
        step_after(status, retry_after, attempt) is Retry <==> status == 429 && attempt < 3,
        step_after(status, retry_after, attempt) is Read <==> 200 <= status <= 299,
        status == 429 && attempt < 3 ==> step_after(status, retry_after, attempt) == (
        ApiStep::Retry { wait: waiting_time(retry_after, attempt), attempt: (attempt + 1) as u8 }),
{
}

/// An item of an answer stands where it says, or else where it is; its vector is a list of numbers
/// under `embedding`, and an item without one is refused.
pub proof fn law_items_of_answers(
    m: Map<Seq<char>, JsonView>,
    place: nat,
    n: nat,
    s: Seq<char>,
    numbers: Seq<JsonView>,
)
    ensures
        ({
            let index = seq!['i', 'n', 'd', 'e', 'x'];
            let embedding = seq!['e', 'm', 'b', 'e', 'd', 'd', 'i', 'n', 'g'];
            let item = JsonView::Object(m);
            &&& m.contains_key(index) && m[index] == JsonView::Number(s) && text::digits_value(s)
                == Some(n) ==> item_index(item, place) == n
            &&& !m.contains_key(index) ==> item_index(item, place) == place
            &&& m.contains_key(embedding) && m[embedding] == JsonView::Array(numbers) && (forall|
                i: int,
            |
                0 <= i < numbers.len() ==> #[trigger] numbers[i] is Number) ==> item_vector(item)
                == Ok::<Seq<JsonView>, ErrorView>(numbers)
            &&& m.contains_key(embedding) && m[embedding] == JsonView::Array(numbers) && (exists|
                i: int,
            |
                0 <= i < numbers.len() && #[trigger] numbers[i] !is Number) ==> item_vector(item)
                is Err
            &&& !m.contains_key(embedding) ==> item_vector(item) is Err
        }),
{
    reveal_strlit("index");
    reveal_strlit("embedding");
    assert("index"@ =~= seq!['i', 'n', 'd', 'e', 'x']);
    assert("embedding"@ =~= seq!['e', 'm', 'b', 'e', 'd', 'd', 'i', 'n', 'g']);
}

proof fn lemma_with_item_members(
    list: Seq<(nat, Seq<JsonView>)>,
    n: nat,
    v: Seq<JsonView>,
    x: (nat, Seq<JsonView>),
)
    ensures
        with_item(list, n, v).contains(x) <==> list.contains(x) || x == (n, v),
    decreases list.len(),
{
    let r = with_item(list, n, v);
    let len = list.len() as int;
    if list.len() > 0 && list.last().0 > n {
        let d = list.drop_last();
        let s = with_item(d, n, v);
        lemma_with_item_members(d, n, v, x);
        if s.contains(x) {
            let i = choose|i: int| 0 <= i < s.len() && s[i] == x;
            assert(r[i] == x);
        }
        assert(r[s.len() as int] == list[len - 1]);
        if d.contains(x) {
            let i = choose|i: int| 0 <= i < d.len() && d[i] == x;
            assert(list[i] == x);
        }
        if list.contains(x) {
            let i = choose|i: int| 0 <= i < len && list[i] == x;
            if i < len - 1 {
                assert(d[i] == x);
            }
        }
        if r.contains(x) {
            let i = choose|i: int| 0 <= i < r.len() && r[i] == x;
            if i < s.len() {
                assert(s[i] == x);
            }
        }
    } else {
        if list.contains(x) {
            let i = choose|i: int| 0 <= i < len && list[i] == x;
            assert(r[i] == x);
        }
        assert(r[len] == (n, v));
    }
}

/// The vectors of an answer are those of its items, each with the place that the item has.
pub proof fn law_vectors_of_answers(
    data: Seq<JsonView>,
    k: nat,
    list: Seq<(nat, Seq<JsonView>)>,
    x: (nat, Seq<JsonView>),
)
    requires
        k <= data.len(),
        sorted_items(data, k) == Ok::<Seq<(nat, Seq<JsonView>)>, ErrorView>(list),
    ensures
        list.contains(x) <==> exists|i: int|
            0 <= i < k && item_vector(#[trigger] data[i]) == Ok::<Seq<JsonView>, ErrorView>(x.1)
                && item_index(data[i], i as nat) == x.0,
    decreases k,
{
    if k > 0 {
        let n = (k - 1) as nat;
        let before = sorted_items(data, n)->Ok_0;
        let v = item_vector(data[k - 1])->Ok_0;
        let at = item_index(data[k - 1], n);
        law_vectors_of_answers(data, n, before, x);
        lemma_with_item_members(before, at, v, x);
        if x == (at, v) {
            assert(item_vector(data[k - 1]) == Ok::<Seq<JsonView>, ErrorView>(x.1));
        }
    }
}

/// An answer is its list under `data`; without one it is refused.
pub proof fn law_data_of_answers(m: Map<Seq<char>, JsonView>, data: Seq<JsonView>)
    ensures
        ({
            let key = seq!['d', 'a', 't', 'a'];
            &&& m.contains_key(key) && m[key] == JsonView::Array(data) ==> response_items(
                JsonView::Object(m),
            ) == sorted_items(data, data.len())
            &&& !m.contains_key(key) ==> response_items(JsonView::Object(m)) is Err
        }),
{
    reveal_strlit("data");
    assert("data"@ =~= seq!['d', 'a', 't', 'a']);
}

/// Where caches lie: below the data of a vault, below the vault in older versions, and below the
/// shared store under the name of the vault.
pub proof fn law_places_of_caches(base: Seq<char>, id: Seq<char>)
    requires
        base.len() > 0,
        base.last() != '/',
        id.len() > 0,
        id[0] != '/',
        id.last() != '/',
    ensures
        cache_path(base) == base + seq!['/'] + "embeddings"@ + seq!['/'] + "embeddings.bin"@,
        old_cache_path(base) == base + seq!['/'] + ".obsidian"@ + seq!['/'] + "obsidian-mcp"@
            + seq!['/'] + "embeddings.bin"@,
        daemon_path(base, id) == base + seq!['/'] + "vaults"@ + seq!['/'] + id + seq!['/']
            + "embeddings.bin"@,
{
    reveal_strlit("embeddings");
    reveal_strlit("embeddings.bin");
    reveal_strlit(".obsidian");
    reveal_strlit("obsidian-mcp");
    reveal_strlit("vaults");
    let a = base + seq!['/'] + "embeddings"@;
    path::law_joined_paths(base, "embeddings"@);
    path::law_joined_paths(a, "embeddings.bin"@);
    let b = base + seq!['/'] + ".obsidian"@;
    path::law_joined_paths(base, ".obsidian"@);
    path::law_joined_paths(b, "obsidian-mcp"@);
    path::law_joined_paths(b + seq!['/'] + "obsidian-mcp"@, "embeddings.bin"@);
    let c = base + seq!['/'] + "vaults"@;
    path::law_joined_paths(base, "vaults"@);
    path::law_joined_paths(c, id);
    path::law_joined_paths(c + seq!['/'] + id, "embeddings.bin"@);
}

/// What is embedded of a note is its title, a line with its headings if it has any, and the first
/// words of its text, as far as there are so many.
pub proof fn law_embedded_text(
    title: Seq<char>,
    headings: Seq<Seq<char>>,
    body: Seq<char>,
    words: Seq<Seq<char>>,
)
    requires
        words.is_prefix_of(text::words(body)),
        words.len() == 400 || (words.len() < 400 && words.len() == text::words(body).len()),
    ensures
        text::join(headings, seq![' ', '|', ' ']).len() == 0 ==> embed_text(title, headings, body)
            == title + seq!['\n'] + text::join(words, seq![' ']),
        text::join(headings, seq![' ', '|', ' ']).len() > 0 ==> embed_text(title, headings, body)
            == title + seq!['\n'] + text::join(headings, seq![' ', '|', ' ']) + seq!['\n']
            + text::join(words, seq![' ']),
{
    reveal_strlit(" ");
    reveal_strlit("\n");
    reveal_strlit(" | ");
    assert(" "@ =~= seq![' ']);
    assert("\n"@ =~= seq!['\n']);
    assert(" | "@ =~= seq![' ', '|', ' ']);
    let all = text::words(body);
    if all.len() > 400 {
        assert(words =~= all.take(400));
    } else {
        assert(words =~= all);
    }
}

/// An item goes behind all items with its number or a lower one and before those with a higher
/// one, so that items with one number keep their order.
pub proof fn law_place_of_item(
    list: Seq<(nat, Seq<JsonView>)>,
    x: (nat, Seq<JsonView>),
    n: nat,
    v: Seq<JsonView>,
)
    ensures
        list.len() == 0 ==> with_item(list, n, v) == seq![(n, v)],
        list.len() > 0 && list.last().0 <= n ==> with_item(list, n, v) == list.push((n, v)),
        x.0 > n ==> with_item(list.push(x), n, v) == with_item(list, n, v).push(x),
{
    assert(list.push(x).drop_last() =~= list);
}

} // verus!
