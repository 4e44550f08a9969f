//! A collection: its entries, the operations on them, and what to ask of
//! the index and to make of its answers.

use vstd::prelude::*;
use crate::error::Error;
use crate::identity::{
    lemma_compacted_states, lemma_compacted_wf, lemma_filter_len_remove, lemma_filter_len_update,
    lemma_filter_split,
};
use crate::model::{
    index_item, is_live_entry, is_other, is_tombstone, lemma_filter_drops_one,
    lemma_filter_keeps_all, lemma_hits_prefix, CollectionView, EntryView, SearchResultView, Neighbour,
};
use crate::lookup::{text_hash, TextIndex};
use crate::ranking::arrange;
use crate::{result_views, SearchResult};
use crate::vector::{all_finite, is_all_finite, storable_dimensions};

verus! {

/// The most neighbours that a node of the proximity graph keeps in a layer.
pub const MAX_NB_CONNECTION: usize = 16;

/// The number of vectors that the proximity graph is laid out for; it
/// grows beyond.
pub const MAX_ELEMENTS: usize = 100_000;

/// The most layers of the proximity graph.
pub const MAX_LAYER: usize = 16;

/// The width of the beam when the proximity graph takes a vector in.
pub const EF_CONSTRUCTION: usize = 200;

/// One stored vector.
#[derive(Debug)]
pub struct Entry {
    /// The caller's identifier.
    pub id: String,
    /// The identifier under which the index knows the vector.
    pub internal_id: usize,
    /// The components, each as the bit pattern of a single-precision number.
    pub vector: Vec<u32>,
    /// Whether the entry is tombstoned.
    pub deleted: bool,
}

impl View for Entry {
    type V = EntryView;

    open spec fn view(&self) -> EntryView {
        EntryView {
            id: self.id@,
            internal_id: self.internal_id as nat,
            vector: self.vector@,
            deleted: self.deleted,
        }
    }
}

/// The views of a run of entries.
pub open spec fn entry_views(entries: Seq<Entry>) -> Seq<EntryView> {
    entries.map_values(|e: Entry| e@)
}

/// What the index is to hold for one live entry.
#[derive(Debug)]
pub struct IndexItem {
    /// The identifier under which the index is to know the vector.
    pub internal_id: usize,
    /// The components, each as the bit pattern of a single-precision number.
    pub vector: Vec<u32>,
}

/// The plain values of a run of index items.
pub open spec fn item_views(items: Seq<IndexItem>) -> Seq<(nat, Seq<u32>)> {
    items.map_values(|item: IndexItem| (item.internal_id as nat, item.vector@))
}

/// What to ask of the index: how many candidates, and how wide a beam.
#[derive(Debug, Clone, Copy, PartialEq, Eq, Structural)]
pub struct SearchRequest {
    /// The number of candidates.
    pub count: usize,
    /// The width of the beam.
    pub ef: usize,
}

/// Why a collection for vectors of `dimensions` components refuses
/// `vector`, if it does: the length is looked at first, then the components.
pub open spec fn refusal(dimensions: nat, vector: Seq<u32>) -> Option<Error> {
    if vector.len() != dimensions {
        Some(Error::DimensionMismatch { expected: dimensions as usize, got: vector.len() as usize })
    } else if !all_finite(vector) {
        Some(Error::NonFiniteComponent)
    } else {
        None
    }
}

/// A set of vectors of one length, each under a caller's identifier.
#[derive(Debug)]
pub struct Collection {
    entries: Vec<Entry>,
    tombstones: usize,
    index: TextIndex,
    next_id: usize,
    dimensions: usize,
    path: String,
    dirty: bool,
}

impl View for Collection {
    type V = CollectionView;

    closed spec fn view(&self) -> CollectionView {
        CollectionView {
            path: self.path@,
            dimensions: self.dimensions as nat,
            next_id: self.next_id as nat,
            dirty: self.dirty,
            entries: entry_views(self.entries@),
        }
    }
}

impl Collection {
    /// The invariants of a collection.
    pub open spec fn wf(&self) -> bool {
        self@.wf() && storable_dimensions(self@.dimensions) && self.consistent()
    }

    /// Whether what the collection keeps beside its entries agrees with
    /// them: the number of tombstones that it counted, and the internal
    /// identifiers that it filed under the callers' identifiers.
    pub closed spec fn consistent(&self) -> bool {
        &&& self.tombstones == self@.tombstone_count()
        &&& filed(self.index, self.entries@)
    }

    /// An empty collection for vectors of `dimensions` components, to be
    /// kept under `path`.
    pub fn new(path: String, dimensions: usize) -> (c: Collection)
        requires
            storable_dimensions(dimensions as nat),
        ensures
            c.wf(),
            c@ == CollectionView::empty(path@, dimensions as nat),
    {
        let c = Collection {
            entries: Vec::new(),
            tombstones: 0,
            index: TextIndex::new(),
            next_id: 0,
            dimensions,
            path,
            dirty: false,
        };
        assert(entry_views(c.entries@) =~= Seq::empty());
        assert(c@.entries.filter(is_tombstone()) =~= Seq::empty()) by {
            reveal(Seq::filter);
        }
        c
    }

    /// A collection with the given entries and allocator state.
    pub fn restore(path: String, dimensions: usize, next_id: usize, entries: Vec<Entry>) -> (c:
        Collection)
        requires
            storable_dimensions(dimensions as nat),
            (CollectionView {
                path: path@,
                dimensions: dimensions as nat,
                next_id: next_id as nat,
                dirty: false,
                entries: entry_views(entries@),
            }).wf(),
        ensures
            c.wf(),
            c@ == (CollectionView {
                path: path@,
                dimensions: dimensions as nat,
                next_id: next_id as nat,
                dirty: false,
                entries: entry_views(entries@),
            }),
    {
        let tombstones: usize = count_tombstones(&entries);
        let index: TextIndex = file_entries(&entries);
        Collection { entries, tombstones, index, next_id, dimensions, path, dirty: false }
    }

    /// The length of every stored vector.
    pub fn dimensions(&self) -> (d: usize)
        ensures
            d == self@.dimensions,
    {
        self.dimensions
    }

    /// The internal identifier that the next insertion gets.
    pub fn next_id(&self) -> (n: usize)
        ensures
            n == self@.next_id,
    {
        self.next_id
    }

    /// Where the collection is kept.
    pub fn path(&self) -> (p: &String)
        ensures
            p@ == self@.path,
    {
        &self.path
    }

    /// Whether the collection changed since it was last saved.
    pub fn is_dirty(&self) -> (d: bool)
        ensures
            d == self@.dirty,
    {
        self.dirty
    }

    /// The entries in ascending order of internal identifier.
    pub fn entries(&self) -> (e: &Vec<Entry>)
        ensures
            entry_views(e@) == self@.entries,
    {
        &self.entries
    }

    /// Records that the collection is saved as it stands.
    pub fn mark_clean(&mut self)
        ensures
            final(self)@ == (CollectionView { dirty: false, ..old(self)@ }),
            old(self).wf() ==> final(self).wf(),
    {
        self.dirty = false;
    }

    /// Where the entry of `id` stands, if it has one, and where its internal
    /// identifier stands among those that the index gives for `id`.
    fn locate(&self, id: &str) -> (r: Option<(usize, usize)>)
        requires
            self.wf(),
        ensures
            match r {
                Some((p, slot)) => p < self@.entries.len() && self@.entries[p as int].id == id@
                    && slot < self.index.candidates(id@).len() && self.index.candidates(
                    id@,
                )[slot as int] == self@.entries[p as int].internal_id,
                None => !self@.knows(id@),
            },
    {
        let owned: String = id.to_owned();
        match self.index.get(id) {
            None => {
                assert(!self@.knows(id@)) by {
                    if self@.knows(id@) {
                        let i = choose|i: int|
                            0 <= i < self@.entries.len() && (#[trigger] self@.entries[i]).id == id@;
                        assert(self.index.candidates(self.entries@[i].id@).contains(
                            self.entries@[i].internal_id,
                        ));
                    }
                }
                None
            },
            Some(numbers) => {
                let mut slot: usize = 0;
                while slot < numbers.len()
                    invariant
                        self.wf(),
                        owned@ == id@,
                        numbers@ == self.index.candidates(id@),
                        slot <= numbers.len(),
                        forall|t: int, i: int|
                            0 <= t < slot && 0 <= i < self@.entries.len() && (
                            #[trigger] self@.entries[i]).internal_id == #[trigger] numbers@[t]
                                ==> self@.entries[i].id != id@,
                    decreases numbers.len() - slot,
                {
                    match self.position_of_internal(numbers[slot]) {
                        Some(p) => {
                            if self.entries[p].id == owned {
                                return Some((p, slot));
                            }
                            assert forall|i: int|
                                0 <= i < self@.entries.len() && (
                                #[trigger] self@.entries[i]).internal_id
                                    == numbers@[slot as int] implies self@.entries[i].id != id@ by {
                                if i < p {
                                    assert(self@.entries[i].internal_id
                                        < self@.entries[p as int].internal_id);
                                } else if p < i {
                                    assert(self@.entries[p as int].internal_id
                                        < self@.entries[i].internal_id);
                                }
                            }
                        },
                        None => {},
                    }
                    slot += 1;
                }
                assert(!self@.knows(id@)) by {
                    if self@.knows(id@) {
                        let i = choose|i: int|
                            0 <= i < self@.entries.len() && (#[trigger] self@.entries[i]).id == id@;
                        assert(self.index.candidates(self.entries@[i].id@).contains(
                            self.entries@[i].internal_id,
                        ));
                        let t = choose|t: int|
                            0 <= t < numbers@.len() && numbers@[t] == self.entries@[i].internal_id;
                        assert(self@.entries[i].internal_id == numbers@[t]);
                    }
                }
                None
            },
        }
    }

    /// Where the entry with the internal identifier `internal_id` stands, if
    /// there is one.
    fn position_of_internal(&self, internal_id: usize) -> (r: Option<usize>)
        requires
            self.wf(),
        ensures
            match r {
                Some(i) => i < self@.entries.len() && self@.entries[i as int].internal_id
                    == internal_id,
                None => forall|j: int|
                    0 <= j < self@.entries.len() ==> (#[trigger] self@.entries[j]).internal_id
                        != internal_id,
            },
    {
        let mut lo: usize = 0;
        let mut hi: usize = self.entries.len();
        while lo < hi
            invariant
                self.wf(),
                lo <= hi <= self.entries.len(),
                forall|j: int| 0 <= j < lo ==> (#[trigger] self@.entries[j]).internal_id < internal_id,
                forall|j: int|
                    hi <= j < self.entries.len() ==> (#[trigger] self@.entries[j]).internal_id
                        > internal_id,
            decreases hi - lo,
        {
            let mid: usize = lo + (hi - lo) / 2;
            let at: usize = self.entries[mid].internal_id;
            assert(self@.entries[mid as int].internal_id == at);
            if at == internal_id {
                return Some(mid);
            } else if at < internal_id {
                lo = mid + 1;
            } else {
                hi = mid;
            }
        }
        None
    }

    /// The number of tombstoned entries.
    pub fn tombstone_count(&self) -> (n: usize)
        requires
            self.wf(),
        ensures
            n == self@.tombstone_count(),
            n <= self@.entries.len(),
    {
        proof {
            self@.entries.lemma_filter_len(is_tombstone());
        }
        self.tombstones
    }

    /// The number of entries that are not tombstoned.
    pub fn active_count(&self) -> (n: usize)
        requires
            self.wf(),
        ensures
            n == self@.active_count(),
    {
        self.entries.len() - self.tombstone_count()
    }

    /// Stores `vector` under `id` and returns the internal identifier that it
    /// got. An earlier entry of `id`, tombstoned or not, is replaced. A
    /// vector of another length than the collection's, or with a component
    /// that is not finite, is refused and changes nothing.
    pub fn insert_vector(&mut self, id: &str, vector: Vec<u32>) -> (r: Result<usize, Error>)
        requires
            old(self).wf(),
            old(self)@.next_id < usize::MAX,
        ensures
            final(self).wf(),
            match refusal(old(self)@.dimensions, vector@) {
                Some(e) => r == Err::<usize, Error>(e) && final(self)@ == old(self)@,
                None => r == Ok::<usize, Error>(old(self)@.next_id as usize) && final(self)@
                    == old(self)@.inserted(id@, vector@),
            },
    {
        if vector.len() != self.dimensions {
            return Err(Error::DimensionMismatch { expected: self.dimensions, got: vector.len() });
        }
        if !is_all_finite(&vector) {
            return Err(Error::NonFiniteComponent);
        }
        let ghost before = self@;
        let ghost filed_before = self.index;
        let ghost entries_before = self.entries@;
        let n: usize = self.next_id;
        match self.locate(id) {
            Some((p, slot)) => {
                proof {
                    lemma_filter_drops_one(before.entries, is_other(id@), p as int);
                    lemma_filter_len_remove(before.entries, is_tombstone(), p as int);
                }
                let replaced: Entry = self.entries.remove(p);
                assert(replaced@ == before.entries[p as int]);
                if replaced.deleted {
                    self.tombstones = self.tombstones - 1;
                }
                self.index.replace(id, slot, n);
                assert(entry_views(self.entries@) =~= before.entries.remove(p as int));
                assert forall|i: int| 0 <= i < self.entries.len() implies self.index.candidates(
                    (#[trigger] self.entries@[i]).id@,
                ).contains(self.entries@[i].internal_id) by {
                    let j = if i < p {
                        i
                    } else {
                        i + 1
                    };
                    let e = entries_before[j];
                    assert(self.entries@[i] == e);
                    assert(before.entries[j].internal_id != before.entries[p as int].internal_id)
                        by {
                        if j < p {
                            assert(before.entries[j].internal_id
                                < before.entries[p as int].internal_id);
                        } else {
                            assert(before.entries[p as int].internal_id
                                < before.entries[j].internal_id);
                        }
                    }
                    let old_numbers = filed_before.candidates(e.id@);
                    assert(old_numbers.contains(e.internal_id));
                    let t = choose|t: int| 0 <= t < old_numbers.len() && old_numbers[t] == e.internal_id;
                    if text_hash(e.id@) == text_hash(id@) {
                        assert(t != slot);
                        assert(self.index.candidates(e.id@)[t] == e.internal_id);
                    } else {
                        assert(self.index.candidates(e.id@)[t] == e.internal_id);
                    }
                }
            },
            None => {
                proof {
                    lemma_filter_keeps_all(before.entries, is_other(id@));
                }
                self.index.add(id, n);
                assert forall|i: int| 0 <= i < self.entries.len() implies self.index.candidates(
                    (#[trigger] self.entries@[i]).id@,
                ).contains(self.entries@[i].internal_id) by {
                    let e = entries_before[i];
                    let old_numbers = filed_before.candidates(e.id@);
                    assert(old_numbers.contains(e.internal_id));
                    let t = choose|t: int| 0 <= t < old_numbers.len() && old_numbers[t] == e.internal_id;
                    assert(self.index.candidates(e.id@)[t] == e.internal_id);
                }
            },
        }
        assert(entry_views(self.entries@) == before.entries.filter(is_other(id@)));
        let ghost kept = entry_views(self.entries@);
        let ghost kept_entries = self.entries@;
        let owned: String = id.to_owned();
        self.next_id = n + 1;
        self.entries.push(Entry { id: owned, internal_id: n, vector, deleted: false });
        self.dirty = true;
        proof {
            let added = EntryView { id: id@, internal_id: n as nat, vector: vector@, deleted: false };
            assert(entry_views(self.entries@) =~= kept.push(added));
            kept.lemma_filter_push(added, is_tombstone());
            let numbers = self.index.candidates(id@);
            assert(numbers.contains(n)) by {
                if filed_before.candidates(id@).len() == numbers.len() {
                    let slot = choose|slot: int|
                        0 <= slot < numbers.len() && numbers == filed_before.candidates(id@).update(
                            slot,
                            n,
                        );
                    assert(numbers[slot] == n);
                } else {
                    assert(numbers[numbers.len() - 1] == n);
                }
            }
            assert forall|i: int| 0 <= i < self.entries.len() implies self.index.candidates(
                (#[trigger] self.entries@[i]).id@,
            ).contains(self.entries@[i].internal_id) by {
                if i < kept_entries.len() {
                    assert(self.entries@[i] == kept_entries[i]);
                }
            }
        }
        Ok(n)
    }

    /// Tombstones the entry of `id`. Returns whether it did: it does not
    /// where `id` is unknown or tombstoned already, and then changes nothing.
    pub fn delete_vector(&mut self, id: &str) -> (r: bool)
        requires
            old(self).wf(),
        ensures
            final(self).wf(),
            r == old(self)@.is_live(id@),
            final(self)@ == old(self)@.deleted(id@),
    {
        match self.locate(id) {
            Some((p, slot)) => {
                if self.entries[p].deleted {
                    false
                } else {
                    let ghost before = self@;
                    let ghost entries_before = self.entries@;
                    assert(before.slot(id@) == p);
                    proof {
                        let marked = EntryView { deleted: true, ..before.entries[p as int] };
                        let after = before.entries.update(p as int, marked);
                        after.lemma_filter_len(is_tombstone());
                        lemma_filter_len_update(before.entries, is_tombstone(), p as int, marked);
                        assert(!before.entries[p as int].deleted);
                        assert(after.len() == self.entries.len());
                        assert(self.tombstones == before.tombstone_count());
                        assert(after.filter(is_tombstone()).len() == self.tombstones + 1);
                    }
                    self.entries[p].deleted = true;
                    self.tombstones = self.tombstones + 1;
                    self.dirty = true;
                    assert(entry_views(self.entries@) =~= before.entries.update(
                        p as int,
                        EntryView { deleted: true, ..before.entries[p as int] },
                    ));
                    assert forall|i: int| 0 <= i < self.entries.len() implies self.index.candidates(
                        (#[trigger] self.entries@[i]).id@,
                    ).contains(self.entries@[i].internal_id) by {
                        assert(self.entries@[i].id == entries_before[i].id);
                        assert(self.entries@[i].internal_id == entries_before[i].internal_id);
                    }
                    true
                }
            },
            None => false,
        }
    }

    /// What to ask of the index for the best `k` results: `k` candidates and
    /// one more for every tombstone, with a beam of `ef_search` or of `k`,
    /// whichever is wider.
    pub fn search_request(&self, k: usize, ef_search: usize) -> (r: SearchRequest)
        requires
            self.wf(),
            k + self@.tombstone_count() <= usize::MAX,
        ensures
            r.count == k + self@.tombstone_count(),
            r.ef == if ef_search >= k {
                ef_search
            } else {
                k
            },
    {
        let tombstones: usize = self.tombstone_count();
        SearchRequest { count: k + tombstones, ef: if ef_search >= k {
            ef_search
        } else {
            k
        } }
    }

    /// The results among the candidates that the index returned: the first
    /// `k` that belong to live entries when the candidates are taken in
    /// ascending order of distance, each with the caller's identifier.
    pub fn search_vectors(&self, neighbours: &Vec<Neighbour>, k: usize) -> (output: Vec<SearchResult>)
        requires
            self.wf(),
        ensures
            result_views(output@) == self@.search_results(neighbours@, k as nat),
    {
        let ordered: Vec<Neighbour> = arrange(neighbours);
        let mut output: Vec<SearchResult> = Vec::new();
        let mut i: usize = 0;
        assert(result_views(output@) =~= self@.hits(ordered@.take(0)));
        while i < ordered.len() && output.len() < k
            invariant
                self.wf(),
                i <= ordered.len(),
                output.len() <= k,
                result_views(output@) == self@.hits(ordered@.take(i as int)),
            decreases ordered.len() - i,
        {
            let n: Neighbour = ordered[i];
            let ghost before = result_views(output@);
            proof {
                ordered@.lemma_filter_map_take_succ(self@.hit_fn(), i as int);
            }
            match self.position_of_internal(n.internal_id) {
                Some(p) => {
                    if !self.entries[p].deleted {
                        assert(self@.entries[p as int].internal_id == n.internal_id);
                        assert(self@.indexes(n.internal_id as nat));
                        assert(self@.indexed_slot(n.internal_id as nat) == p);
                        output.push(SearchResult { id: self.entries[p].id.clone(), distance: n.distance });
                        assert(result_views(output@) =~= before.push(
                            SearchResultView { id: self@.entries[p as int].id, distance: n.distance },
                        ));
                    } else {
                        assert(!self@.indexes(n.internal_id as nat));
                    }
                },
                None => {
                    assert(!self@.indexes(n.internal_id as nat));
                },
            }
            i += 1;
        }
        proof {
            lemma_hits_prefix(self@, ordered@, i as int, ordered.len() as int);
            assert(ordered@.take(ordered.len() as int) =~= ordered@);
        }
        output
    }

    /// What a freshly built index is to hold: every live entry's internal
    /// identifier and vector, in ascending order of internal identifier.
    pub fn rebuild_from_vectors(&self) -> (items: Vec<IndexItem>)
        ensures
            item_views(items@) == self@.index_contents(),
    {
        let mut items: Vec<IndexItem> = Vec::new();
        let mut i: usize = 0;
        assert(self@.entries.take(0).filter(is_live_entry()) =~= Seq::<EntryView>::empty()) by {
            reveal(Seq::filter);
        }
        assert(item_views(items@) =~= self@.entries.take(0).filter(is_live_entry()).map_values(
            index_item(),
        ));
        while i < self.entries.len()
            invariant
                i <= self.entries.len(),
                item_views(items@) == self@.entries.take(i as int).filter(
                    is_live_entry(),
                ).map_values(index_item()),
            decreases self.entries.len() - i,
        {
            let ghost before = item_views(items@);
            proof {
                let head = self@.entries.take(i as int);
                head.lemma_filter_push(self@.entries[i as int], is_live_entry());
                assert(head.push(self@.entries[i as int]) =~= self@.entries.take(i + 1));
            }
            if !self.entries[i].deleted {
                let vector: Vec<u32> = self.entries[i].vector.clone();
                assert(vector@ =~= self.entries[i as int].vector@);
                items.push(IndexItem { internal_id: self.entries[i].internal_id, vector });
                assert(item_views(items@) =~= before.push(index_item()(self@.entries[i as int])));
                assert(item_views(items@) =~= self@.entries.take(i + 1).filter(
                    is_live_entry(),
                ).map_values(index_item()));
            }
            i += 1;
        }
        assert(self@.entries.take(self.entries.len() as int) =~= self@.entries);
        items
    }

    /// Drops the tombstoned entries. Returns whether there were any, which
    /// is when the index has to be built anew.
    pub fn compact(&mut self) -> (rebuild: bool)
        requires
            old(self).wf(),
        ensures
            final(self).wf(),
            final(self)@ == old(self)@.compacted(),
            rebuild == (old(self)@.tombstone_count() > 0),
    {
        let ghost before = self@;
        let mut all: Vec<Entry> = Vec::new();
        core::mem::swap(&mut self.entries, &mut all);
        self.index = TextIndex::new();
        let total: usize = all.len();
        let ghost views = entry_views(all@);
        proof {
            assert(views == before.entries);
            assert(views.take(0).filter(is_live_entry()) =~= Seq::<EntryView>::empty()) by {
                reveal(Seq::filter);
            }
            assert(entry_views(self.entries@) =~= views.take(0).filter(is_live_entry()));
        }
        for e in it: all
            invariant
                views == entry_views(it.seq()),
                self.tombstones == old(self).tombstones,
                filed(self.index, self.entries@),
                self@.path == before.path,
                self@.dimensions == before.dimensions,
                self@.next_id == before.next_id,
                self@.dirty == before.dirty,
                self@.entries == views.take(it.index() as int).filter(is_live_entry()),
        {
            let ghost i = it.index() as int;
            let ghost kept = entry_views(self.entries@);
            proof {
                let head = views.take(i);
                head.lemma_filter_push(views[i], is_live_entry());
                assert(head.push(views[i]) =~= views.take(i + 1));
            }
            if !e.deleted {
                let ghost filed_before = self.index;
                let ghost kept_entries = self.entries@;
                self.index.add(e.id.as_str(), e.internal_id);
                self.entries.push(e);
                assert(entry_views(self.entries@) =~= kept.push(views[i]));
                proof {
                    lemma_filed_push(filed_before, self.index, kept_entries, e);
                }
            }
        }
        self.tombstones = 0;
        proof {
            assert(views.take(views.len() as int) =~= views);
            lemma_compacted_wf(before);
            lemma_compacted_states(before);
            lemma_filter_split(views);
        }
        self.entries.len() < total
    }
}

/// The number of tombstoned entries among `entries`.
fn count_tombstones(entries: &Vec<Entry>) -> (n: usize)
    ensures
        n == entry_views(entries@).filter(is_tombstone()).len(),
{
    let ghost views = entry_views(entries@);
    let mut n: usize = 0;
    let mut i: usize = 0;
    assert(views.take(0).filter(is_tombstone()) =~= Seq::<EntryView>::empty()) by {
        reveal(Seq::filter);
    }
    while i < entries.len()
        invariant
            views == entry_views(entries@),
            i <= entries.len(),
            n <= i,
            n == views.take(i as int).filter(is_tombstone()).len(),
        decreases entries.len() - i,
    {
        proof {
            let head = views.take(i as int);
            head.lemma_filter_push(views[i as int], is_tombstone());
            assert(head.push(views[i as int]) =~= views.take(i + 1));
        }
        if entries[i].deleted {
            n += 1;
        }
        i += 1;
    }
    assert(views.take(entries.len() as int) =~= views);
    n
}

/// Whether the internal identifier of every entry is filed under the
/// entry's caller-side identifier.
pub closed spec fn filed(index: TextIndex, entries: Seq<Entry>) -> bool {
    forall|i: int|
        0 <= i < entries.len() ==> index.candidates((#[trigger] entries[i]).id@).contains(
            entries[i].internal_id,
        )
}

/// Filing the internal identifier of one more entry keeps those of the
/// others filed.
proof fn lemma_filed_push(before: TextIndex, after: TextIndex, entries: Seq<Entry>, e: Entry)
    requires
        filed(before, entries),
        after.candidates(e.id@) == before.candidates(e.id@).push(e.internal_id),
        forall|h: u64| h != text_hash(e.id@) ==> #[trigger] after.bucket(h) == before.bucket(h),
    ensures
        filed(after, entries.push(e)),
{
    let all = entries.push(e);
    assert forall|i: int| 0 <= i < all.len() implies after.candidates(
        (#[trigger] all[i]).id@,
    ).contains(all[i].internal_id) by {
        if i < entries.len() {
            let old_numbers = before.candidates(entries[i].id@);
            assert(old_numbers.contains(entries[i].internal_id));
            let t = choose|t: int|
                0 <= t < old_numbers.len() && old_numbers[t] == entries[i].internal_id;
            assert(after.candidates(entries[i].id@)[t] == entries[i].internal_id);
        } else {
            let numbers = after.candidates(e.id@);
            assert(numbers[numbers.len() - 1] == e.internal_id);
        }
    }
}

/// An index with the internal identifier of every entry filed under the
/// entry's caller-side identifier.
fn file_entries(entries: &Vec<Entry>) -> (index: TextIndex)
    ensures
        filed(index, entries@),
{
    let mut index: TextIndex = TextIndex::new();
    let mut i: usize = 0;
    while i < entries.len()
        invariant
            i <= entries.len(),
            filed(index, entries@.take(i as int)),
        decreases entries.len() - i,
    {
        let ghost before = index;
        index.add(entries[i].id.as_str(), entries[i].internal_id);
        proof {
            lemma_filed_push(before, index, entries@.take(i as int), entries@[i as int]);
            assert(entries@.take(i as int).push(entries@[i as int]) =~= entries@.take(i + 1));
        }
        i += 1;
    }
    assert(entries@.take(entries.len() as int) =~= entries@);
    index
}

} // verus!
