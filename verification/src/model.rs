//! The state of a collection as the contracts see it, and how the
//! operations change it.

use vstd::prelude::*;
use crate::ranking::arranged;

verus! {

/// One stored vector as the collection's contracts see it.
pub struct EntryView {
    /// The caller's identifier.
    pub id: Seq<char>,
    /// The identifier under which the vector is known to the index.
    pub internal_id: nat,
    /// The components, each as the bit pattern of a single-precision number.
    pub vector: Seq<u32>,
    /// Whether the entry is tombstoned.
    pub deleted: bool,
}

/// The state of a collection: its entries in ascending order of internal
/// identifier, the identifier allocator, and what was fixed at creation.
pub struct CollectionView {
    /// Where the collection is kept.
    pub path: Seq<char>,
    /// The length of every vector.
    pub dimensions: nat,
    /// The internal identifier that the next insertion gets.
    pub next_id: nat,
    /// Whether the collection changed since it was last saved.
    pub dirty: bool,
    /// The entries, tombstoned ones included.
    pub entries: Seq<EntryView>,
}

/// The predicate that picks the tombstoned entries.
pub open spec fn is_tombstone() -> spec_fn(EntryView) -> bool {
    |e: EntryView| e.deleted
}

/// The predicate that picks the entries that are not tombstoned.
pub open spec fn is_live_entry() -> spec_fn(EntryView) -> bool {
    |e: EntryView| !e.deleted
}

/// The predicate that picks the entries of every identifier but `id`.
pub open spec fn is_other(id: Seq<char>) -> spec_fn(EntryView) -> bool {
    |e: EntryView| e.id != id
}

/// What the index holds for an entry: its internal identifier and its vector.
pub open spec fn index_item() -> spec_fn(EntryView) -> (nat, Seq<u32>) {
    |e: EntryView| (e.internal_id, e.vector)
}

/// A candidate that the index returned for a query: an internal identifier
/// and the bit pattern of its distance to the query.
#[derive(Debug, Clone, Copy, PartialEq, Eq, Structural)]
pub struct Neighbour {
    /// The identifier under which the index knows the vector.
    pub internal_id: usize,
    /// The bit pattern of the distance to the query.
    pub distance: u32,
}

/// A search result as the contracts see it: the caller's identifier and the
/// bit pattern of the distance that the index reported.
pub struct SearchResultView {
    /// The caller's identifier.
    pub id: Seq<char>,
    /// The bit pattern of the distance to the query.
    pub distance: u32,
}

/// Internal identifiers strictly ascend along `entries`.
pub open spec fn ascending(entries: Seq<EntryView>) -> bool {
    forall|i: int, j: int|
        0 <= i < j < entries.len() ==> entries[i].internal_id < entries[j].internal_id
}

/// No external identifier occurs twice in `entries`.
pub open spec fn distinct_ids(entries: Seq<EntryView>) -> bool {
    forall|i: int, j: int| 0 <= i < j < entries.len() ==> entries[i].id != entries[j].id
}

/// Whether one of `entries` belongs to `id`.
pub open spec fn known_in(entries: Seq<EntryView>, id: Seq<char>) -> bool {
    exists|i: int| 0 <= i < entries.len() && (#[trigger] entries[i]).id == id
}

/// Whether one of `entries` belongs to `id` and is not tombstoned.
pub open spec fn live_in(entries: Seq<EntryView>, id: Seq<char>) -> bool {
    exists|i: int| 0 <= i < entries.len() && (#[trigger] entries[i]).id == id && !entries[i].deleted
}

/// Whether one of `entries` belongs to `id` and is tombstoned.
pub open spec fn tombstoned_in(entries: Seq<EntryView>, id: Seq<char>) -> bool {
    exists|i: int| 0 <= i < entries.len() && (#[trigger] entries[i]).id == id && entries[i].deleted
}

impl CollectionView {
    /// A collection without entries.
    pub open spec fn empty(path: Seq<char>, dimensions: nat) -> CollectionView {
        CollectionView { path, dimensions, next_id: 0, dirty: false, entries: Seq::empty() }
    }

    /// The invariants of a collection.
    pub open spec fn wf(self) -> bool {
        &&& ascending(self.entries)
        &&& distinct_ids(self.entries)
        &&& forall|i: int|
            0 <= i < self.entries.len() ==> (#[trigger] self.entries[i]).internal_id
                < self.next_id
        &&& forall|i: int|
            0 <= i < self.entries.len() ==> (#[trigger] self.entries[i]).vector.len()
                == self.dimensions
    }

    /// Whether `id` has an entry, tombstoned or not.
    pub open spec fn knows(self, id: Seq<char>) -> bool {
        known_in(self.entries, id)
    }

    /// The position of the entry of `id`, where it has one.
    pub open spec fn slot(self, id: Seq<char>) -> int {
        choose|i: int| 0 <= i < self.entries.len() && (#[trigger] self.entries[i]).id == id
    }

    /// Whether `id` has an entry that is not tombstoned.
    pub open spec fn is_live(self, id: Seq<char>) -> bool {
        live_in(self.entries, id)
    }

    /// Whether `id` has a tombstoned entry.
    pub open spec fn is_tombstoned(self, id: Seq<char>) -> bool {
        tombstoned_in(self.entries, id)
    }

    /// The number of tombstoned entries.
    pub open spec fn tombstone_count(self) -> nat {
        self.entries.filter(is_tombstone()).len()
    }

    /// The number of entries that are not tombstoned.
    pub open spec fn active_count(self) -> int {
        self.entries.len() - self.tombstone_count()
    }

    /// The state after `vector` was stored under `id`: an earlier entry of
    /// `id` is gone, and the new one has the next internal identifier.
    pub open spec fn inserted(self, id: Seq<char>, vector: Seq<u32>) -> CollectionView {
        CollectionView {
            entries: self.entries.filter(is_other(id)).push(
                EntryView { id, internal_id: self.next_id, vector, deleted: false },
            ),
            next_id: self.next_id + 1,
            dirty: true,
            ..self
        }
    }

    /// The state after `id` was deleted: its entry is tombstoned if it was
    /// live, and nothing changes otherwise.
    pub open spec fn deleted(self, id: Seq<char>) -> CollectionView {
        if self.is_live(id) {
            CollectionView {
                entries: self.entries.update(
                    self.slot(id),
                    EntryView { deleted: true, ..self.entries[self.slot(id)] },
                ),
                dirty: true,
                ..self
            }
        } else {
            self
        }
    }

    /// The state after the tombstoned entries were dropped.
    pub open spec fn compacted(self) -> CollectionView {
        CollectionView { entries: self.entries.filter(is_live_entry()), ..self }
    }

    /// What a freshly built index holds: the live entries in ascending order
    /// of internal identifier.
    pub open spec fn index_contents(self) -> Seq<(nat, Seq<u32>)> {
        self.entries.filter(is_live_entry()).map_values(index_item())
    }

    /// Whether a live entry has the internal identifier `internal_id`.
    pub open spec fn indexes(self, internal_id: nat) -> bool {
        exists|i: int|
            0 <= i < self.entries.len() && (#[trigger] self.entries[i]).internal_id == internal_id
                && !self.entries[i].deleted
    }

    /// The position of the live entry with the internal identifier
    /// `internal_id`, where there is one.
    pub open spec fn indexed_slot(self, internal_id: nat) -> int {
        choose|i: int|
            0 <= i < self.entries.len() && (#[trigger] self.entries[i]).internal_id == internal_id
                && !self.entries[i].deleted
    }

    /// The result that a candidate stands for: none where its internal
    /// identifier belongs to no live entry.
    pub open spec fn hit_of(self, n: Neighbour) -> Option<SearchResultView> {
        if self.indexes(n.internal_id as nat) {
            Some(
                SearchResultView {
                    id: self.entries[self.indexed_slot(n.internal_id as nat)].id,
                    distance: n.distance,
                },
            )
        } else {
            None
        }
    }

    /// `hit_of` as a function value.
    pub open spec fn hit_fn(self) -> spec_fn(Neighbour) -> Option<SearchResultView> {
        |n: Neighbour| self.hit_of(n)
    }

    /// The results that a run of candidates stands for, in the candidates'
    /// order.
    pub open spec fn hits(self, neighbours: Seq<Neighbour>) -> Seq<SearchResultView> {
        neighbours.filter_map(self.hit_fn())
    }

    /// The first `k` results that a run of candidates stands for, or all
    /// where there are fewer.
    pub open spec fn first_hits(self, neighbours: Seq<Neighbour>, k: nat) -> Seq<SearchResultView> {
        let all = self.hits(neighbours);
        if k < all.len() {
            all.take(k as int)
        } else {
            all
        }
    }

    /// What a search returns for the candidates that the index gave: the
    /// first `k` results that they stand for when they are taken in
    /// ascending order of distance, or all where there are fewer.
    pub open spec fn search_results(self, neighbours: Seq<Neighbour>, k: nat) -> Seq<SearchResultView> {
        self.first_hits(arranged(neighbours), k)
    }
}

/// Filtering keeps a run whose every element meets the predicate.
pub proof fn lemma_filter_keeps_all<A>(s: Seq<A>, pred: spec_fn(A) -> bool)
    requires
        forall|i: int| 0 <= i < s.len() ==> pred(#[trigger] s[i]),
    ensures
        s.filter(pred) == s,
    decreases s.len(),
{
    reveal(Seq::filter);
    if s.len() > 0 {
        lemma_filter_keeps_all(s.drop_last(), pred);
    }
}

/// Filtering takes out the one element that fails the predicate.
pub proof fn lemma_filter_drops_one<A>(s: Seq<A>, pred: spec_fn(A) -> bool, p: int)
    requires
        0 <= p < s.len(),
        !pred(s[p]),
        forall|i: int| 0 <= i < s.len() && i != p ==> pred(#[trigger] s[i]),
    ensures
        s.filter(pred) == s.remove(p),
    decreases s.len(),
{
    reveal(Seq::filter);
    if p == s.len() - 1 {
        lemma_filter_keeps_all(s.drop_last(), pred);
    } else {
        lemma_filter_drops_one(s.drop_last(), pred, p);
    }
}

/// The results of the first `i` candidates open the results of the first
/// `j`, for `i <= j`.
pub proof fn lemma_hits_prefix(c: CollectionView, neighbours: Seq<Neighbour>, i: int, j: int)
    requires
        0 <= i <= j <= neighbours.len(),
    ensures
        c.hits(neighbours.take(i)).len() <= c.hits(neighbours.take(j)).len(),
        c.hits(neighbours.take(j)).take(c.hits(neighbours.take(i)).len() as int) == c.hits(
            neighbours.take(i),
        ),
    decreases j - i,
{
    if i < j {
        lemma_hits_prefix(c, neighbours, i, j - 1);
        neighbours.lemma_filter_map_take_succ(c.hit_fn(), j - 1);
    } else {
    }
}

} // verus!
