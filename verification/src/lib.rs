//! An embedded collection of vectors for nearest-neighbour search under
//! cosine similarity.
//!
//! A collection keeps vectors of one length, each under a caller's
//! identifier, together with the internal identifiers under which a
//! proximity graph knows them. Vectors are stored, replaced, tombstoned and
//! dropped at a checkpoint; what a checkpoint stores can be read back into
//! the same collection. The graph itself is the caller's: the library says
//! what to put into it and what to ask of it, and turns the candidates that
//! it returns into results.
//!
//! Every component of a vector and every distance is handled as the bit
//! pattern of a single-precision number.

pub mod collection;
pub mod decimal;
pub mod encoding;
pub mod error;
pub mod history;
pub mod identity;
pub mod lookup;
pub mod model;
pub mod persistence;
pub mod ranking;
pub mod vector;

use vstd::prelude::*;
use vstd::string::StringExecFns;
use crate::collection::{item_views, refusal, Collection, IndexItem, SearchRequest};
use crate::error::{ConfigFault, Error};
use crate::model::{CollectionView, Neighbour, SearchResultView};
use crate::persistence::{load_collection, save_collection, snapshot, Metadata, MetadataView};
use crate::vector::storable_dimensions;

verus! {

/// The beam width of a search, unless more results than that are asked for.
pub const EF_SEARCH_DEFAULT: usize = 50;

/// What a caller asks for when opening a collection.
#[derive(Debug)]
pub struct CollectionConfig {
    /// Where the collection is kept.
    pub path: String,
    /// The length of every vector.
    pub dimensions: u32,
    /// The kind of index; `hnsw` is the only one.
    pub index_type: String,
    /// The measure of similarity; `cosine` is the only one.
    pub metric: String,
}

/// A search result: the caller's identifier and the bit pattern of the
/// distance that the index reported for it.
#[derive(Debug)]
pub struct SearchResult {
    /// The caller's identifier.
    pub id: String,
    /// The bit pattern of the distance to the query.
    pub distance: u32,
}

impl View for SearchResult {
    type V = SearchResultView;

    open spec fn view(&self) -> SearchResultView {
        SearchResultView { id: self.id@, distance: self.distance }
    }
}

/// The views of a run of search results.
pub open spec fn result_views(results: Seq<SearchResult>) -> Seq<SearchResultView> {
    results.map_values(|r: SearchResult| r@)
}

/// What `stats` reports of a collection.
#[derive(Debug, Clone, Copy, PartialEq, Eq, Structural)]
pub struct CollectionStats {
    /// The number of live entries.
    pub count: u32,
    /// The length of every vector.
    pub dimensions: u32,
    /// The size of what is stored of the collection.
    pub file_size_bytes: u32,
}

/// How a collection came to be open.
#[derive(Debug, Clone, Copy, PartialEq, Eq, Structural)]
pub enum Opened {
    /// It was open already; nothing changed.
    AlreadyOpen,
    /// Nothing was stored under its path; it is new and empty.
    Created,
    /// It holds what was stored under its path.
    Restored,
}

/// What a checkpoint leaves to do: the index to build anew, where entries
/// were dropped, and the values to store.
#[derive(Debug)]
pub struct Checkpoint {
    /// What the index is to be built from, where it is to be built anew.
    pub rebuild: Option<Vec<IndexItem>>,
    /// What is to be stored.
    pub metadata: Metadata,
}

/// The only supported metric, `cosine`.
pub open spec fn cosine() -> Seq<char> {
    seq!['c', 'o', 's', 'i', 'n', 'e']
}

/// The only supported index type, `hnsw`.
pub open spec fn hnsw() -> Seq<char> {
    seq!['h', 'n', 's', 'w']
}

/// What is wrong with an opening request, if anything: the metric is looked
/// at first, then the index type, then the vector length.
pub open spec fn config_fault(metric: Seq<char>, index_type: Seq<char>, dimensions: u32) -> Option<
    ConfigFault,
> {
    if metric != cosine() {
        Some(ConfigFault::Metric)
    } else if index_type != hnsw() {
        Some(ConfigFault::IndexType)
    } else if dimensions == 0 {
        Some(ConfigFault::Dimensions)
    } else {
        None
    }
}

/// Whether every collection of a keyed set is kept under its own path and
/// meets the invariants of a collection.
pub open spec fn registered(collections: Map<Seq<char>, CollectionView>) -> bool {
    forall|p: Seq<char>| #[trigger]
        collections.contains_key(p) ==> collections[p].path == p && collections[p].wf()
            && storable_dimensions(collections[p].dimensions)
}

/// The open collections, each under the path where it is kept.
#[derive(Debug)]
pub struct Registry {
    collections: Vec<Collection>,
}

impl View for Registry {
    type V = Map<Seq<char>, CollectionView>;

    closed spec fn view(&self) -> Map<Seq<char>, CollectionView> {
        Map::new(|p: Seq<char>| self.holds(p), |p: Seq<char>| self.collections[self.slot(p)]@)
    }
}

impl Registry {
    /// Whether a collection is kept under `path`.
    closed spec fn holds(&self, path: Seq<char>) -> bool {
        exists|i: int| 0 <= i < self.collections.len() && (#[trigger] self.collections[i])@.path == path
    }

    /// Where the collection of `path` stands.
    closed spec fn slot(&self, path: Seq<char>) -> int {
        choose|i: int| 0 <= i < self.collections.len() && (#[trigger] self.collections[i])@.path == path
    }

    /// The invariants of the registry: every collection meets its own, and
    /// no two are kept under one path.
    pub closed spec fn wf(&self) -> bool {
        &&& forall|i: int| 0 <= i < self.collections.len() ==> (#[trigger] self.collections[i]).wf()
        &&& forall|i: int, j: int|
            0 <= i < j < self.collections.len() ==> (#[trigger] self.collections[i])@.path != (
            #[trigger] self.collections[j])@.path
    }

    /// What the invariants mean for the keyed set of collections.
    pub proof fn lemma_registered(&self)
        requires
            self.wf(),
        ensures
            registered(self@),
    {
        assert forall|p: Seq<char>| #[trigger] self@.contains_key(p) implies self@[p].path == p
            && self@[p].wf() && storable_dimensions(self@[p].dimensions) by {
            assert(self.collections[self.slot(p)].wf());
        }
    }

    /// The view of a registry in which one collection changed and kept its
    /// path.
    proof fn lemma_changed(before: Registry, after: Registry, p: int)
        requires
            before.wf(),
            0 <= p < before.collections.len(),
            after.collections.len() == before.collections.len(),
            after.collections[p]@.path == before.collections[p]@.path,
            after.collections[p].wf(),
            forall|i: int|
                0 <= i < before.collections.len() && i != p ==> after.collections[i]
                    == before.collections[i],
        ensures
            after.wf(),
            after@ == before@.insert(before.collections[p]@.path, after.collections[p]@),
    {
        let path = before.collections[p]@.path;
        assert forall|i: int, j: int| 0 <= i < j < after.collections.len() implies (
        #[trigger] after.collections[i])@.path != (#[trigger] after.collections[j])@.path by {
            assert(after.collections[i]@.path == before.collections[i]@.path);
            assert(after.collections[j]@.path == before.collections[j]@.path);
        }
        assert forall|i: int| 0 <= i < after.collections.len() implies (
        #[trigger] after.collections[i]).wf() by {
            if i != p {
                assert(before.collections[i].wf());
            }
        }
        assert forall|q: Seq<char>| after.holds(q) == before.holds(q) by {
            if after.holds(q) {
                let i = after.slot(q);
                assert(before.collections[i]@.path == q);
            }
            if before.holds(q) {
                let i = before.slot(q);
                assert(after.collections[i]@.path == q);
            }
        }
        assert(before.holds(path));
        assert forall|q: Seq<char>| after.holds(q) implies #[trigger] after@[q] == before@.insert(
            path,
            after.collections[p]@,
        )[q] by {
            let i = after.slot(q);
            let j = before.slot(q);
            assert(after.collections[i]@.path == q);
            assert(before.collections[j]@.path == q);
            assert(before.collections[i]@.path == q);
            assert(i == j);
        }
        assert(after@ =~= before@.insert(path, after.collections[p]@));
    }

    /// The view of a registry that got one more collection, under a path
    /// that it did not hold.
    proof fn lemma_added(before: Registry, after: Registry)
        requires
            before.wf(),
            after.collections@ == before.collections@.push(after.collections@.last()),
            after.collections@.len() == before.collections@.len() + 1,
            after.collections@.last().wf(),
            !before.holds(after.collections@.last()@.path),
        ensures
            after.wf(),
            after@ == before@.insert(after.collections@.last()@.path, after.collections@.last()@),
    {
        let added = after.collections@.last();
        let n = before.collections@.len() as int;
        assert(after.collections[n] == added);
        assert forall|i: int| 0 <= i < n implies after.collections[i] == before.collections[i] by {}
        assert forall|i: int, j: int| 0 <= i < j < after.collections.len() implies (
        #[trigger] after.collections[i])@.path != (#[trigger] after.collections[j])@.path by {
            if j == n {
                assert(before.collections[i]@.path != added@.path);
            } else {
                assert(before.collections[i]@.path != before.collections[j]@.path);
            }
        }
        assert forall|i: int| 0 <= i < after.collections.len() implies (
        #[trigger] after.collections[i]).wf() by {
            if i < n {
                assert(before.collections[i].wf());
            }
        }
        assert forall|q: Seq<char>| after.holds(q) == (before.holds(q) || q == added@.path) by {
            if after.holds(q) {
                let i = after.slot(q);
                if i < n {
                    assert(before.collections[i]@.path == q);
                }
            }
            if before.holds(q) {
                let i = before.slot(q);
                assert(after.collections[i]@.path == q);
            }
            if q == added@.path {
                assert(after.collections[n]@.path == q);
            }
        }
        assert forall|q: Seq<char>| after.holds(q) implies #[trigger] after@[q] == before@.insert(
            added@.path,
            added@,
        )[q] by {
            let i = after.slot(q);
            assert(after.collections[i]@.path == q);
            if q == added@.path {
                assert(i == n);
            } else {
                let j = before.slot(q);
                assert(before.collections[j]@.path == q);
                assert(after.collections[j]@.path == q);
                assert(i == j);
            }
        }
        assert(after@ =~= before@.insert(added@.path, added@));
    }

    /// A registry without collections.
    pub fn new() -> (r: Registry)
        ensures
            r.wf(),
            r@ == Map::<Seq<char>, CollectionView>::empty(),
    {
        let r = Registry { collections: Vec::new() };
        assert(r@ =~= Map::<Seq<char>, CollectionView>::empty());
        r
    }

    /// Where the collection of `path` stands, if one is open.
    fn position(&self, path: &String) -> (r: Option<usize>)
        requires
            self.wf(),
        ensures
            match r {
                Some(i) => i < self.collections.len() && self.collections[i as int]@.path == path@
                    && self@.contains_key(path@) && self@[path@] == self.collections[i as int]@,
                None => !self@.contains_key(path@),
            },
    {
        let mut i: usize = 0;
        while i < self.collections.len()
            invariant
                self.wf(),
                i <= self.collections.len(),
                forall|j: int| 0 <= j < i ==> (#[trigger] self.collections[j])@.path != path@,
            decreases self.collections.len() - i,
        {
            if *self.collections[i].path() == *path {
                assert(self.holds(path@));
                assert(self.collections[self.slot(path@)]@.path == path@);
                assert(self.slot(path@) == i);
                return Some(i);
            }
            i += 1;
        }
        None
    }

    /// Whether a collection is open under `path`.
    pub fn contains(&self, path: &str) -> (r: bool)
        requires
            self.wf(),
        ensures
            r == self@.contains_key(path@),
    {
        let owned: String = path.to_owned();
        self.position(&owned).is_some()
    }

    /// The collection that is open under `path`, if there is one.
    pub fn get(&self, path: &str) -> (r: Option<&Collection>)
        requires
            self.wf(),
        ensures
            match r {
                Some(c) => self@.contains_key(path@) && c@ == self@[path@] && c.wf(),
                None => !self@.contains_key(path@),
            },
    {
        let owned: String = path.to_owned();
        match self.position(&owned) {
            Some(i) => Some(&self.collections[i]),
            None => None,
        }
    }
}

/// A request that opened a collection, or found it open, finds it open
/// when it is made again, whatever is stored by then.
pub proof fn lemma_open_twice(
    fault: Option<ConfigFault>,
    open: bool,
    stored: Option<MetadataView>,
    again: Option<MetadataView>,
    dimensions: u32,
)
    requires
        opening(fault, open, stored, dimensions) is Ok,
    ensures
        opening(fault, true, again, dimensions) == Ok::<Opened, Error>(Opened::AlreadyOpen),
{
}

/// A request for vectors without components is refused, whatever else it
/// asks for and whatever is open or stored.
pub proof fn lemma_zero_dimensions_refused(
    metric: Seq<char>,
    index_type: Seq<char>,
    open: bool,
    stored: Option<MetadataView>,
)
    ensures
        opening(config_fault(metric, index_type, 0), open, stored, 0) is Err,
        opening(config_fault(metric, index_type, 0), open, stored, 0)->Err_0 is UnsupportedConfiguration,
{
}

/// What is wrong with an opening request, if anything.
pub fn validate_config(config: &CollectionConfig) -> (r: Result<(), Error>)
    ensures
        r == match config_fault(config.metric@, config.index_type@, config.dimensions) {
            Some(fault) => Err::<(), Error>(Error::UnsupportedConfiguration(fault)),
            None => Ok::<(), Error>(()),
        },
{
    proof {
        reveal_strlit("cosine");
        reveal_strlit("hnsw");
    }
    let metric: String = String::from_str("cosine");
    let index_type: String = String::from_str("hnsw");
    assert(metric@ =~= cosine());
    assert(index_type@ =~= hnsw());
    if config.metric != metric {
        Err(Error::UnsupportedConfiguration(ConfigFault::Metric))
    } else if config.index_type != index_type {
        Err(Error::UnsupportedConfiguration(ConfigFault::IndexType))
    } else if config.dimensions == 0 {
        Err(Error::UnsupportedConfiguration(ConfigFault::Dimensions))
    } else {
        Ok(())
    }
}

/// How an opening request ends: a request that is not supported is refused
/// first; a collection that is open already stays; where nothing is stored
/// the collection is new; stored values that describe no collection, or one
/// of another vector length than the requested one, are refused; and else
/// the collection is restored.
pub open spec fn opening(
    fault: Option<ConfigFault>,
    open: bool,
    stored: Option<MetadataView>,
    dimensions: u32,
) -> Result<Opened, Error> {
    match fault {
        Some(fault) => Err(Error::UnsupportedConfiguration(fault)),
        None => if open {
            Ok(Opened::AlreadyOpen)
        } else {
            match stored {
                None => Ok(Opened::Created),
                Some(m) => if !m.restorable() {
                    Err(Error::CorruptSnapshot)
                } else if m.dimensions != dimensions {
                    Err(
                        Error::DimensionMismatch {
                            expected: m.dimensions as usize,
                            got: dimensions as usize,
                        },
                    )
                } else {
                    Ok(Opened::Restored)
                },
            }
        },
    }
}

/// The stored values as the contracts see them, where there are any.
pub open spec fn stored_view(stored: Option<&Metadata>) -> Option<MetadataView> {
    match stored {
        Some(m) => Some(m@),
        None => None,
    }
}

/// Opens the collection that `config` names. A collection that is open
/// already stays as it is. Otherwise the collection holds what `stored`
/// describes, or nothing where nothing is stored. A request that is not
/// supported, stored values that describe no collection, and stored vectors
/// of another length than the requested one are refused, and then no
/// collection is registered.
pub fn create_collection(
    registry: &mut Registry,
    config: &CollectionConfig,
    stored: Option<&Metadata>,
) -> (r: Result<Opened, Error>)
    requires
        old(registry).wf(),
        storable_dimensions(config.dimensions as nat),
        match stored {
            Some(m) => storable_dimensions(m@.dimensions),
            None => true,
        },
    ensures
        final(registry).wf(),
        r == opening(
            config_fault(config.metric@, config.index_type@, config.dimensions),
            old(registry)@.contains_key(config.path@),
            stored_view(stored),
            config.dimensions,
        ),
        match r {
            Ok(Opened::Created) => final(registry)@ == old(registry)@.insert(
                config.path@,
                CollectionView::empty(config.path@, config.dimensions as nat),
            ),
            Ok(Opened::Restored) => final(registry)@.contains_key(config.path@) && final(registry)@
                == old(registry)@.insert(config.path@, final(registry)@[config.path@])
                && stored->0@.describes(final(registry)@[config.path@]) && !final(registry)@[config.path@].dirty,
            _ => final(registry)@ == old(registry)@,
        },
{
    match validate_config(config) {
        Err(e) => {
            return Err(e);
        },
        Ok(()) => {},
    }
    if registry.position(&config.path).is_some() {
        return Ok(Opened::AlreadyOpen);
    }
    let ghost before = *registry;
    match stored {
        None => {
            let c = Collection::new(config.path.clone(), config.dimensions as usize);
            registry.collections.push(c);
            proof {
                Registry::lemma_added(before, *registry);
            }
            Ok(Opened::Created)
        },
        Some(metadata) => {
            match load_collection(config.path.clone(), metadata) {
                Err(e) => Err(e),
                Ok(c) => {
                    if c.dimensions() != config.dimensions as usize {
                        Err(
                            Error::DimensionMismatch {
                                expected: c.dimensions(),
                                got: config.dimensions as usize,
                            },
                        )
                    } else {
                        registry.collections.push(c);
                        proof {
                            Registry::lemma_added(before, *registry);
                        }
                        Ok(Opened::Restored)
                    }
                },
            }
        },
    }
}

/// Stores `vector` under `id` in the collection of `path`, and returns the
/// internal identifier under which the index is to hold it. A vector that
/// the collection refuses changes nothing.
pub fn insert_vector(registry: &mut Registry, path: &str, id: &str, vector: Vec<u32>) -> (r: Result<
    usize,
    Error,
>)
    requires
        old(registry).wf(),
        old(registry)@.contains_key(path@) ==> old(registry)@[path@].next_id < usize::MAX,
    ensures
        final(registry).wf(),
        !old(registry)@.contains_key(path@) ==> r == Err::<usize, Error>(Error::NotFound) && final(registry)@ == old(registry)@,
        old(registry)@.contains_key(path@) ==> match refusal(
            old(registry)@[path@].dimensions,
            vector@,
        ) {
            Some(e) => r == Err::<usize, Error>(e) && final(registry)@ == old(registry)@,
            None => r == Ok::<usize, Error>(old(registry)@[path@].next_id as usize) && final(registry)@ == old(registry)@.insert(path@, old(registry)@[path@].inserted(id@, vector@)),
        },
{
    let owned: String = path.to_owned();
    let ghost before = *registry;
    match registry.position(&owned) {
        None => Err(Error::NotFound),
        Some(p) => {
            let r = registry.collections[p].insert_vector(id, vector);
            proof {
                Registry::lemma_changed(before, *registry, p as int);
                assert(before@.insert(path@, before@[path@]) =~= before@);
            }
            r
        },
    }
}

/// Tombstones `id` in the collection of `path`. Returns whether it did: it
/// does not where `id` is unknown or tombstoned already.
pub fn delete_vector(registry: &mut Registry, path: &str, id: &str) -> (r: Result<bool, Error>)
    requires
        old(registry).wf(),
    ensures
        final(registry).wf(),
        match r {
            Err(Error::NotFound) => !old(registry)@.contains_key(path@) && final(registry)@ == old(registry)@,
            Ok(done) => old(registry)@.contains_key(path@) && done == old(registry)@[path@].is_live(id@) && final(registry)@ == old(registry)@.insert(
                path@,
                old(registry)@[path@].deleted(id@),
            ),
            Err(_) => false,
        },
{
    let owned: String = path.to_owned();
    let ghost before = *registry;
    match registry.position(&owned) {
        None => Err(Error::NotFound),
        Some(p) => {
            let done: bool = registry.collections[p].delete_vector(id);
            proof {
                Registry::lemma_changed(before, *registry, p as int);
            }
            Ok(done)
        },
    }
}

/// Begins a checkpoint of the collection of `path`: drops its tombstoned
/// entries, and returns what is to be stored and, where entries were
/// dropped, what the index is to be built anew from.
pub fn build_index(registry: &mut Registry, path: &str) -> (r: Result<Checkpoint, Error>)
    requires
        old(registry).wf(),
    ensures
        final(registry).wf(),
        match r {
            Err(Error::NotFound) => !old(registry)@.contains_key(path@) && final(registry)@ == old(registry)@,
            Ok(checkpoint) => old(registry)@.contains_key(path@) && final(registry)@ == old(registry)@.insert(path@, old(registry)@[path@].compacted()) && checkpoint.metadata@
                == snapshot(old(registry)@[path@].compacted())
                && checkpoint.metadata@.restorable() && checkpoint.metadata@.describes(
                old(registry)@[path@].compacted(),
            ) && match checkpoint.rebuild {
                Some(items) => old(registry)@[path@].tombstone_count() > 0 && item_views(items@)
                    == old(registry)@[path@].compacted().index_contents(),
                None => old(registry)@[path@].tombstone_count() == 0,
            },
            Err(_) => false,
        },
{
    let owned: String = path.to_owned();
    let ghost before = *registry;
    match registry.position(&owned) {
        None => Err(Error::NotFound),
        Some(p) => {
            let dropped: bool = registry.collections[p].compact();
            proof {
                Registry::lemma_changed(before, *registry, p as int);
            }
            let rebuild: Option<Vec<IndexItem>> = if dropped {
                Some(registry.collections[p].rebuild_from_vectors())
            } else {
                None
            };
            let metadata: Metadata = save_collection(&registry.collections[p]);
            Ok(Checkpoint { rebuild, metadata })
        },
    }
}

/// Ends a checkpoint of the collection of `path`: records that it is stored
/// as it stands.
pub fn checkpoint_saved(registry: &mut Registry, path: &str) -> (r: Result<(), Error>)
    requires
        old(registry).wf(),
    ensures
        final(registry).wf(),
        match r {
            Err(Error::NotFound) => !old(registry)@.contains_key(path@) && final(registry)@ == old(registry)@,
            Ok(()) => old(registry)@.contains_key(path@) && final(registry)@ == old(registry)@.insert(path@, (CollectionView { dirty: false, ..old(registry)@[path@] })),
            Err(_) => false,
        },
{
    let owned: String = path.to_owned();
    let ghost before = *registry;
    match registry.position(&owned) {
        None => Err(Error::NotFound),
        Some(p) => {
            registry.collections[p].mark_clean();
            proof {
                Registry::lemma_changed(before, *registry, p as int);
            }
            Ok(())
        },
    }
}

/// What to ask of the index for the best `k` results of a query in the
/// collection of `path`: nothing where the collection has no live entry,
/// and else `k` candidates and one more for every tombstone, with a beam of
/// `EF_SEARCH_DEFAULT` or of `k`, whichever is wider.
pub fn search(registry: &Registry, path: &str, query: &Vec<u32>, k: u32) -> (r: Result<
    Option<SearchRequest>,
    Error,
>)
    requires
        registry.wf(),
        registry@.contains_key(path@) ==> k + registry@[path@].tombstone_count() <= usize::MAX,
    ensures
        match r {
            Err(Error::NotFound) => !registry@.contains_key(path@),
            Err(Error::DimensionMismatch { expected, got }) => registry@.contains_key(path@)
                && query.len() != registry@[path@].dimensions && expected
                == registry@[path@].dimensions && got == query.len(),
            Ok(None) => registry@.contains_key(path@) && query.len()
                == registry@[path@].dimensions && registry@[path@].active_count() == 0,
            Ok(Some(request)) => registry@.contains_key(path@) && query.len()
                == registry@[path@].dimensions && registry@[path@].active_count() > 0
                && request.count == k + registry@[path@].tombstone_count() && request.ef == if k
                > EF_SEARCH_DEFAULT {
                k as usize
            } else {
                EF_SEARCH_DEFAULT
            },
            Err(_) => false,
        },
{
    let owned: String = path.to_owned();
    match registry.position(&owned) {
        None => Err(Error::NotFound),
        Some(p) => {
            let c: &Collection = &registry.collections[p];
            if query.len() != c.dimensions() {
                Err(Error::DimensionMismatch { expected: c.dimensions(), got: query.len() })
            } else if c.active_count() == 0 {
                Ok(None)
            } else {
                Ok(Some(c.search_request(k as usize, EF_SEARCH_DEFAULT)))
            }
        },
    }
}

/// The results of a search in the collection of `path`, from the
/// candidates that the index returned: the first `k` that belong to live
/// entries, in the candidates' order.
pub fn search_results(registry: &Registry, path: &str, neighbours: &Vec<Neighbour>, k: u32) -> (r:
    Result<Vec<SearchResult>, Error>)
    requires
        registry.wf(),
    ensures
        match r {
            Err(Error::NotFound) => !registry@.contains_key(path@),
            Ok(hits) => registry@.contains_key(path@) && result_views(hits@)
                == registry@[path@].search_results(neighbours@, k as nat),
            Err(_) => false,
        },
{
    let owned: String = path.to_owned();
    match registry.position(&owned) {
        None => Err(Error::NotFound),
        Some(p) => Ok(registry.collections[p].search_vectors(neighbours, k as usize)),
    }
}

/// The number of live entries and the vector length of the collection of
/// `path`, with the size of what is stored of it, each cut to 32 bits.
pub fn stats(registry: &Registry, path: &str, file_size: u64) -> (r: Result<CollectionStats, Error>)
    requires
        registry.wf(),
    ensures
        match r {
            Err(Error::NotFound) => !registry@.contains_key(path@),
            Ok(stats) => registry@.contains_key(path@) && stats.count
                == registry@[path@].active_count() % 0x1_0000_0000 && stats.dimensions
                == registry@[path@].dimensions % 0x1_0000_0000 && stats.file_size_bytes == file_size
                % 0x1_0000_0000,
            Err(_) => false,
        },
{
    let owned: String = path.to_owned();
    match registry.position(&owned) {
        None => Err(Error::NotFound),
        Some(p) => {
            let c: &Collection = &registry.collections[p];
            Ok(
                CollectionStats {
                    count: low_word(c.active_count() as u64),
                    dimensions: low_word(c.dimensions() as u64),
                    file_size_bytes: low_word(file_size),
                },
            )
        },
    }
}

/// The low 32 bits of a number.
fn low_word(n: u64) -> (r: u32)
    ensures
        r == n % 0x1_0000_0000,
{
    (n % 0x1_0000_0000) as u32
}

} // verus!
