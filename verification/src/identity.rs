//! The identity layer of a collection: which caller's identifier stands
//! for which internal identifier, and what is live, tombstoned or absent.

use vstd::prelude::*;
use crate::model::{
    ascending, distinct_ids, is_live_entry, is_other, is_tombstone, known_in, live_in,
    tombstoned_in, CollectionView, EntryView,
};

verus! {

/// Where a caller's identifier stands in a collection.
pub enum SlotState {
    /// It has no entry.
    Absent,
    /// It has an entry that searches can return.
    Live,
    /// It has an entry that is hidden from searches until the next
    /// checkpoint drops it.
    Tombstoned,
}

/// An entry's caller-side identifier.
pub open spec fn entry_id() -> spec_fn(EntryView) -> Seq<char> {
    |e: EntryView| e.id
}

impl CollectionView {
    /// Where `id` stands.
    pub open spec fn state_of(self, id: Seq<char>) -> SlotState {
        if self.is_live(id) {
            SlotState::Live
        } else if self.is_tombstoned(id) {
            SlotState::Tombstoned
        } else {
            SlotState::Absent
        }
    }

    /// Whether an entry has the internal identifier `n`.
    pub open spec fn stores(self, n: nat) -> bool {
        exists|i: int| 0 <= i < self.entries.len() && (#[trigger] self.entries[i]).internal_id == n
    }

    /// The position of the entry with the internal identifier `n`, where
    /// there is one.
    pub open spec fn stored_slot(self, n: nat) -> int {
        choose|i: int| 0 <= i < self.entries.len() && (#[trigger] self.entries[i]).internal_id == n
    }

    /// The internal identifier of every caller's identifier that has an
    /// entry.
    pub open spec fn id_map(self) -> Map<Seq<char>, nat> {
        Map::new(
            |id: Seq<char>| self.knows(id),
            |id: Seq<char>| self.entries[self.slot(id)].internal_id,
        )
    }

    /// The caller's identifier of every internal identifier in use.
    pub open spec fn reverse_map(self) -> Map<nat, Seq<char>> {
        Map::new(|n: nat| self.stores(n), |n: nat| self.entries[self.stored_slot(n)].id)
    }

    /// The vector of every internal identifier in use.
    pub open spec fn vectors(self) -> Map<nat, Seq<u32>> {
        Map::new(|n: nat| self.stores(n), |n: nat| self.entries[self.stored_slot(n)].vector)
    }

    /// The caller's identifiers that are tombstoned.
    pub open spec fn tombstones(self) -> Set<Seq<char>> {
        Set::new(|id: Seq<char>| self.is_tombstoned(id))
    }

    /// The caller's identifiers that searches can return.
    pub open spec fn live_ids(self) -> Set<Seq<char>> {
        Set::new(|id: Seq<char>| self.is_live(id))
    }
}

/// What filtering keeps: the members that meet the predicate.
pub proof fn lemma_filter_members<A>(s: Seq<A>, pred: spec_fn(A) -> bool)
    ensures
        forall|e: A| #[trigger] s.filter(pred).contains(e) <==> s.contains(e) && pred(e),
{
    assert forall|e: A| #[trigger] s.filter(pred).contains(e) <==> s.contains(e) && pred(e) by {
        if s.filter(pred).contains(e) {
            s.lemma_filter_contains_rev(pred, e);
            let k = choose|k: int| 0 <= k < s.filter(pred).len() && s.filter(pred)[k] == e;
            s.lemma_filter_pred(pred, k);
        }
        if s.contains(e) && pred(e) {
            let i = choose|i: int| 0 <= i < s.len() && s[i] == e;
            s.lemma_filter_contains(pred, i);
        }
    }
}

/// Filtering keeps the ascending order of internal identifiers and leaves
/// the caller's identifiers distinct.
pub proof fn lemma_filter_keeps_order(s: Seq<EntryView>, pred: spec_fn(EntryView) -> bool)
    requires
        ascending(s),
        distinct_ids(s),
    ensures
        ascending(s.filter(pred)),
        distinct_ids(s.filter(pred)),
    decreases s.len(),
{
    reveal(Seq::filter);
    if s.len() > 0 {
        let head = s.drop_last();
        lemma_filter_keeps_order(head, pred);
        lemma_filter_members(head, pred);
        let kept = head.filter(pred);
        assert forall|i: int| 0 <= i < kept.len() implies (#[trigger] kept[i]).internal_id
            < s.last().internal_id && kept[i].id != s.last().id by {
            assert(kept.contains(kept[i]));
            let j = choose|j: int| 0 <= j < head.len() && head[j] == kept[i];
            assert(s[j] == kept[i]);
        }
    }
}

/// The tombstoned and the other entries of a run add up to the run.
pub proof fn lemma_filter_split(s: Seq<EntryView>)
    ensures
        s.filter(is_tombstone()).len() + s.filter(is_live_entry()).len() == s.len(),
    decreases s.len(),
{
    reveal(Seq::filter);
    if s.len() > 0 {
        lemma_filter_split(s.drop_last());
    }
}

/// Taking out an element takes one from the number of elements that meet a
/// predicate if it met it, and nothing otherwise.
pub proof fn lemma_filter_len_remove<A>(s: Seq<A>, pred: spec_fn(A) -> bool, p: int)
    requires
        0 <= p < s.len(),
    ensures
        s.remove(p).filter(pred).len() + (if pred(s[p]) {
            1int
        } else {
            0int
        }) == s.filter(pred).len(),
    decreases s.len(),
{
    reveal(Seq::filter);
    if p == s.len() - 1 {
        assert(s.remove(p) =~= s.drop_last());
    } else {
        lemma_filter_len_remove(s.drop_last(), pred, p);
        assert(s.remove(p).drop_last() =~= s.drop_last().remove(p));
        assert(s.remove(p).last() == s.last());
    }
}

/// Replacing an element changes the number of elements that meet a
/// predicate by what the old and the new element count.
pub proof fn lemma_filter_len_update<A>(s: Seq<A>, pred: spec_fn(A) -> bool, p: int, a: A)
    requires
        0 <= p < s.len(),
    ensures
        s.update(p, a).filter(pred).len() + (if pred(s[p]) {
            1int
        } else {
            0int
        }) == s.filter(pred).len() + (if pred(a) {
            1int
        } else {
            0int
        }),
    decreases s.len(),
{
    reveal(Seq::filter);
    if p == s.len() - 1 {
        assert(s.update(p, a).drop_last() =~= s.drop_last());
    } else {
        lemma_filter_len_update(s.drop_last(), pred, p, a);
        assert(s.update(p, a).drop_last() =~= s.drop_last().update(p, a));
        assert(s.update(p, a).last() == s.last());
    }
}

/// The caller's identifiers of a run in which none occurs twice are as many
/// as the run is long.
pub proof fn lemma_ids_count(s: Seq<EntryView>)
    requires
        distinct_ids(s),
    ensures
        s.map_values(entry_id()).no_duplicates(),
        s.map_values(entry_id()).to_set().finite(),
        s.map_values(entry_id()).to_set().len() == s.len(),
        forall|id: Seq<char>| #[trigger]
            s.map_values(entry_id()).to_set().contains(id) <==> exists|i: int|
                0 <= i < s.len() && (#[trigger] s[i]).id == id,
{
    let ids = s.map_values(entry_id());
    assert forall|i: int, j: int| 0 <= i < ids.len() && 0 <= j < ids.len() && i != j implies ids[i]
        != ids[j] by {
        if i < j {
            assert(s[i].id != s[j].id);
        } else {
            assert(s[j].id != s[i].id);
        }
    }
    ids.unique_seq_to_set();
    vstd::seq_lib::seq_to_set_is_finite(ids);
    assert forall|id: Seq<char>| #[trigger] ids.to_set().contains(id) <==> exists|i: int|
        0 <= i < s.len() && (#[trigger] s[i]).id == id by {
        if ids.to_set().contains(id) {
            let i = choose|i: int| 0 <= i < ids.len() && ids[i] == id;
            assert(s[i].id == id);
        }
        if exists|i: int| 0 <= i < s.len() && (#[trigger] s[i]).id == id {
            let i = choose|i: int| 0 <= i < s.len() && (#[trigger] s[i]).id == id;
            assert(ids[i] == id);
        }
    }
}

/// A collection keeps its invariants when a vector of its length is stored.
pub proof fn lemma_inserted_wf(c: CollectionView, id: Seq<char>, vector: Seq<u32>)
    requires
        c.wf(),
        vector.len() == c.dimensions,
    ensures
        c.inserted(id, vector).wf(),
{
    let kept = c.entries.filter(is_other(id));
    let after = c.inserted(id, vector).entries;
    lemma_filter_keeps_order(c.entries, is_other(id));
    lemma_filter_members(c.entries, is_other(id));
    assert forall|i: int| 0 <= i < kept.len() implies (#[trigger] kept[i]).internal_id < c.next_id
        && kept[i].vector.len() == c.dimensions && kept[i].id != id by {
        assert(kept.contains(kept[i]));
        let j = choose|j: int| 0 <= j < c.entries.len() && c.entries[j] == kept[i];
    }
    assert forall|i: int| 0 <= i < after.len() implies (#[trigger] after[i]).internal_id
        < c.next_id + 1 && after[i].vector.len() == c.dimensions by {
        if i < kept.len() {
            assert(after[i] == kept[i]);
        }
    }
    assert forall|i: int, j: int| 0 <= i < j < after.len() implies after[i].internal_id
        < after[j].internal_id && after[i].id != after[j].id by {
        assert(after[i] == kept[i]);
        if j < kept.len() {
            assert(after[j] == kept[j]);
        }
    }
}

/// A collection keeps its invariants when an identifier is deleted.
pub proof fn lemma_deleted_wf(c: CollectionView, id: Seq<char>)
    requires
        c.wf(),
    ensures
        c.deleted(id).wf(),
{
}

/// A collection keeps its invariants when its tombstoned entries are
/// dropped.
pub proof fn lemma_compacted_wf(c: CollectionView)
    requires
        c.wf(),
    ensures
        c.compacted().wf(),
{
    let kept = c.entries.filter(is_live_entry());
    lemma_filter_keeps_order(c.entries, is_live_entry());
    lemma_filter_members(c.entries, is_live_entry());
    assert forall|i: int| 0 <= i < kept.len() implies (#[trigger] kept[i]).internal_id < c.next_id
        && kept[i].vector.len() == c.dimensions by {
        assert(kept.contains(kept[i]));
        let j = choose|j: int| 0 <= j < c.entries.len() && c.entries[j] == kept[i];
    }
}

/// After `vector` was stored under `id`, `id` is live under the internal
/// identifier that was next, with `vector` and in one entry only, and every
/// other identifier stands where it stood.
pub proof fn lemma_inserted_states(c: CollectionView, id: Seq<char>, vector: Seq<u32>)
    requires
        c.wf(),
    ensures
        c.inserted(id, vector).state_of(id) == SlotState::Live,
        forall|x: Seq<char>| x != id ==> #[trigger] c.inserted(id, vector).state_of(x) == c.state_of(x),
        forall|i: int|
            0 <= i < c.inserted(id, vector).entries.len() && (#[trigger] c.inserted(
                id,
                vector,
            ).entries[i]).id == id ==> i == c.inserted(id, vector).entries.len() - 1,
        c.inserted(id, vector).entries.last() == (EntryView {
            id,
            internal_id: c.next_id,
            vector,
            deleted: false,
        }),
{
    let kept = c.entries.filter(is_other(id));
    let after = c.inserted(id, vector);
    lemma_filter_members(c.entries, is_other(id));
    assert forall|i: int| 0 <= i < kept.len() implies after.entries[i] == kept[i] && (
    #[trigger] kept[i]).id != id && c.entries.contains(kept[i]) by {
        assert(kept.contains(kept[i]));
    }
    assert(after.entries[kept.len() as int].id == id);
    assert(after.is_live(id));
    assert forall|x: Seq<char>| x != id implies #[trigger] after.state_of(x) == c.state_of(x) by {
        assert forall|e: EntryView| e.id == x implies (c.entries.contains(e)
            <==> after.entries.contains(e)) by {
            if c.entries.contains(e) {
                assert(kept.contains(e));
                let k = choose|k: int| 0 <= k < kept.len() && kept[k] == e;
                assert(after.entries[k] == e);
            }
            if after.entries.contains(e) {
                let k = choose|k: int| 0 <= k < after.entries.len() && after.entries[k] == e;
                assert(k < kept.len());
                assert(kept[k] == e);
            }
        }
        lemma_member_states(c.entries, after.entries, x);
    }
}

/// Whether an identifier is known, live or tombstoned depends only on what
/// a run holds of it.
pub proof fn lemma_member_states(a: Seq<EntryView>, b: Seq<EntryView>, x: Seq<char>)
    requires
        forall|e: EntryView| e.id == x ==> (a.contains(e) <==> b.contains(e)),
    ensures
        known_in(a, x) == known_in(b, x),
        live_in(a, x) == live_in(b, x),
        tombstoned_in(a, x) == tombstoned_in(b, x),
{
    lemma_member_states_half(a, b, x);
    lemma_member_states_half(b, a, x);
}

/// One direction of `lemma_member_states`.
proof fn lemma_member_states_half(a: Seq<EntryView>, b: Seq<EntryView>, x: Seq<char>)
    requires
        forall|e: EntryView| e.id == x ==> (a.contains(e) <==> b.contains(e)),
    ensures
        known_in(a, x) ==> known_in(b, x),
        live_in(a, x) ==> live_in(b, x),
        tombstoned_in(a, x) ==> tombstoned_in(b, x),
{
    if known_in(a, x) {
        let i = choose|i: int| 0 <= i < a.len() && (#[trigger] a[i]).id == x;
        assert(a.contains(a[i]));
        let k = choose|k: int| 0 <= k < b.len() && b[k] == a[i];
        assert(b[k].id == x);
    }
    if live_in(a, x) {
        let i = choose|i: int| 0 <= i < a.len() && (#[trigger] a[i]).id == x && !a[i].deleted;
        assert(a.contains(a[i]));
        let k = choose|k: int| 0 <= k < b.len() && b[k] == a[i];
        assert(b[k].id == x && !b[k].deleted);
    }
    if tombstoned_in(a, x) {
        let i = choose|i: int| 0 <= i < a.len() && (#[trigger] a[i]).id == x && a[i].deleted;
        assert(a.contains(a[i]));
        let k = choose|k: int| 0 <= k < b.len() && b[k] == a[i];
        assert(b[k].id == x && b[k].deleted);
    }
}

/// After `id` was deleted it is tombstoned if it was live, and every
/// identifier stands where it stood otherwise.
pub proof fn lemma_deleted_states(c: CollectionView, id: Seq<char>)
    requires
        c.wf(),
    ensures
        c.state_of(id) is Live ==> c.deleted(id).state_of(id) is Tombstoned,
        !(c.state_of(id) is Live) ==> c.deleted(id) == c,
        forall|x: Seq<char>| x != id ==> #[trigger] c.deleted(id).state_of(x) == c.state_of(x),
{
    if c.is_live(id) {
        let p = c.slot(id);
        let after = c.deleted(id);
        assert(after.entries[p].id == id && after.entries[p].deleted);
        assert(!after.is_live(id)) by {
            if after.is_live(id) {
                let i = choose|i: int|
                    0 <= i < after.entries.len() && (#[trigger] after.entries[i]).id == id
                        && !after.entries[i].deleted;
                assert(c.entries[i].id == id);
                assert(i == p);
            }
        }
        assert forall|x: Seq<char>| x != id implies #[trigger] after.state_of(x) == c.state_of(
            x,
        ) by {
            assert forall|e: EntryView| e.id == x implies (c.entries.contains(e)
                <==> after.entries.contains(e)) by {
                if c.entries.contains(e) {
                    let k = choose|k: int| 0 <= k < c.entries.len() && c.entries[k] == e;
                    assert(after.entries[k] == e);
                }
                if after.entries.contains(e) {
                    let k = choose|k: int| 0 <= k < after.entries.len() && after.entries[k] == e;
                    assert(c.entries[k] == e);
                }
            }
            lemma_member_states(c.entries, after.entries, x);
        }
    }
}

/// After the tombstoned entries were dropped, the tombstoned identifiers
/// are absent and every other identifier stands where it stood.
pub proof fn lemma_compacted_states(c: CollectionView)
    requires
        c.wf(),
    ensures
        forall|x: Seq<char>|
            c.state_of(x) is Tombstoned ==> #[trigger] c.compacted().state_of(x) is Absent,
        forall|x: Seq<char>|
            !(c.state_of(x) is Tombstoned) ==> #[trigger] c.compacted().state_of(x) == c.state_of(
                x,
            ),
        c.compacted().tombstone_count() == 0,
{
    let after = c.compacted();
    lemma_filter_members(c.entries, is_live_entry());
    assert forall|x: Seq<char>|
        after.is_live(x) == c.is_live(x) && !(#[trigger] after.is_tombstoned(x)) by {
        if after.is_live(x) {
            let i = choose|i: int|
                0 <= i < after.entries.len() && (#[trigger] after.entries[i]).id == x
                    && !after.entries[i].deleted;
            assert(after.entries.contains(after.entries[i]));
            let k = choose|k: int| 0 <= k < c.entries.len() && c.entries[k] == after.entries[i];
            assert(c.entries[k].id == x && !c.entries[k].deleted);
        }
        if c.is_live(x) {
            let i = choose|i: int|
                0 <= i < c.entries.len() && (#[trigger] c.entries[i]).id == x
                    && !c.entries[i].deleted;
            assert(c.entries.contains(c.entries[i]));
            assert(after.entries.contains(c.entries[i]));
            let k = choose|k: int|
                0 <= k < after.entries.len() && after.entries[k] == c.entries[i];
            assert(after.entries[k].id == x && !after.entries[k].deleted);
        }
        if after.is_tombstoned(x) {
            let i = choose|i: int|
                0 <= i < after.entries.len() && (#[trigger] after.entries[i]).id == x
                    && after.entries[i].deleted;
            assert(after.entries.contains(after.entries[i]));
        }
    }
    assert forall|x: Seq<char>| c.state_of(x) is Tombstoned implies #[trigger] after.state_of(
        x,
    ) is Absent by {
        assert(!after.is_tombstoned(x));
    }
    assert forall|x: Seq<char>| !(c.state_of(x) is Tombstoned) implies #[trigger] after.state_of(
        x,
    ) == c.state_of(x) by {
        assert(!after.is_tombstoned(x));
    }
    lemma_filter_members(after.entries, is_tombstone());
    let tombs = after.entries.filter(is_tombstone());
    if tombs.len() > 0 {
        assert(tombs.contains(tombs[0]));
        assert(after.entries.contains(tombs[0]));
    }
}

/// The live identifiers, the tombstoned ones and all that have an entry
/// are as many as the entries of their kind: the number of live entries is
/// the number of mapped identifiers less the number of tombstones.
pub proof fn lemma_counts(c: CollectionView)
    requires
        c.wf(),
    ensures
        c.id_map().dom().finite(),
        c.tombstones().finite(),
        c.live_ids().finite(),
        c.id_map().dom().len() == c.entries.len(),
        c.tombstones().len() == c.tombstone_count(),
        c.live_ids().len() == c.active_count(),
        c.active_count() == c.id_map().dom().len() - c.tombstones().len(),
        c.tombstones().subset_of(c.id_map().dom()),
        c.live_ids().subset_of(c.id_map().dom()),
        c.live_ids().disjoint(c.tombstones()),
{
    let live = c.entries.filter(is_live_entry());
    let tombs = c.entries.filter(is_tombstone());
    lemma_filter_split(c.entries);
    lemma_filter_members(c.entries, is_live_entry());
    lemma_filter_members(c.entries, is_tombstone());
    lemma_filter_keeps_order(c.entries, is_live_entry());
    lemma_filter_keeps_order(c.entries, is_tombstone());
    lemma_ids_count(c.entries);
    lemma_ids_count(live);
    lemma_ids_count(tombs);
    assert(c.id_map().dom() =~= c.entries.map_values(entry_id()).to_set());
    assert forall|x: Seq<char>| c.is_live(x) == live.map_values(entry_id()).to_set().contains(
        x,
    ) by {
        if c.is_live(x) {
            let i = choose|i: int|
                0 <= i < c.entries.len() && (#[trigger] c.entries[i]).id == x
                    && !c.entries[i].deleted;
            assert(c.entries.contains(c.entries[i]));
            assert(live.contains(c.entries[i]));
            let k = choose|k: int| 0 <= k < live.len() && live[k] == c.entries[i];
            assert(live[k].id == x);
        }
        if live.map_values(entry_id()).to_set().contains(x) {
            let k = choose|k: int| 0 <= k < live.len() && (#[trigger] live[k]).id == x;
            assert(live.contains(live[k]));
            let i = choose|i: int| 0 <= i < c.entries.len() && c.entries[i] == live[k];
            assert(c.entries[i].id == x && !c.entries[i].deleted);
        }
    }
    assert(c.live_ids() =~= live.map_values(entry_id()).to_set());
    assert forall|x: Seq<char>|
        c.is_tombstoned(x) == tombs.map_values(entry_id()).to_set().contains(x) by {
        if c.is_tombstoned(x) {
            let i = choose|i: int|
                0 <= i < c.entries.len() && (#[trigger] c.entries[i]).id == x
                    && c.entries[i].deleted;
            assert(c.entries.contains(c.entries[i]));
            assert(tombs.contains(c.entries[i]));
            let k = choose|k: int| 0 <= k < tombs.len() && tombs[k] == c.entries[i];
            assert(tombs[k].id == x);
        }
        if tombs.map_values(entry_id()).to_set().contains(x) {
            let k = choose|k: int| 0 <= k < tombs.len() && (#[trigger] tombs[k]).id == x;
            assert(tombs.contains(tombs[k]));
            let i = choose|i: int| 0 <= i < c.entries.len() && c.entries[i] == tombs[k];
            assert(c.entries[i].id == x && c.entries[i].deleted);
        }
    }
    assert(c.tombstones() =~= tombs.map_values(entry_id()).to_set());
    assert forall|x: Seq<char>| c.live_ids().contains(x) implies !c.tombstones().contains(x) by {
        let i = choose|i: int|
            0 <= i < c.entries.len() && (#[trigger] c.entries[i]).id == x && !c.entries[i].deleted;
        if c.is_tombstoned(x) {
            let j = choose|j: int|
                0 <= j < c.entries.len() && (#[trigger] c.entries[j]).id == x
                    && c.entries[j].deleted;
            if i < j {
                assert(c.entries[i].id != c.entries[j].id);
            } else if j < i {
                assert(c.entries[j].id != c.entries[i].id);
            }
        }
    }
}

/// The invariants of the identity layer: the two maps are inverse to each
/// other, every stored vector has its caller's identifier and the length of
/// the collection, every tombstoned identifier is mapped, the allocator is
/// ahead of every internal identifier in use, and the index is to hold
/// every live entry.
pub proof fn lemma_identity_layer(c: CollectionView)
    requires
        c.wf(),
    ensures
        forall|x: Seq<char>| #[trigger]
            c.id_map().contains_key(x) ==> c.reverse_map().contains_key(c.id_map()[x])
                && c.reverse_map()[c.id_map()[x]] == x,
        forall|n: nat| #[trigger]
            c.reverse_map().contains_key(n) ==> c.id_map().contains_key(c.reverse_map()[n])
                && c.id_map()[c.reverse_map()[n]] == n,
        c.vectors().dom() == c.reverse_map().dom(),
        forall|n: nat| #[trigger]
            c.vectors().contains_key(n) ==> n < c.next_id && c.vectors()[n].len() == c.dimensions,
        forall|x: Seq<char>| #[trigger] c.tombstones().contains(x) ==> c.id_map().contains_key(x),
        forall|x: Seq<char>| #[trigger]
            c.live_ids().contains(x) ==> c.index_contents().contains(
                (c.id_map()[x], c.vectors()[c.id_map()[x]]),
            ),
{
    assert forall|x: Seq<char>| #[trigger] c.id_map().contains_key(x) implies c.reverse_map().contains_key(
        c.id_map()[x],
    ) && c.reverse_map()[c.id_map()[x]] == x by {
        let i = c.slot(x);
        let n = c.entries[i].internal_id;
        assert(c.stores(n));
        let j = c.stored_slot(n);
        assert(i == j) by {
            if i < j {
                assert(c.entries[i].internal_id < c.entries[j].internal_id);
            } else if j < i {
                assert(c.entries[j].internal_id < c.entries[i].internal_id);
            }
        }
    }
    assert forall|n: nat| #[trigger] c.reverse_map().contains_key(n) implies c.id_map().contains_key(
        c.reverse_map()[n],
    ) && c.id_map()[c.reverse_map()[n]] == n by {
        let i = c.stored_slot(n);
        let x = c.entries[i].id;
        assert(c.knows(x));
        let j = c.slot(x);
        assert(i == j) by {
            if i < j {
                assert(c.entries[i].id != c.entries[j].id);
            } else if j < i {
                assert(c.entries[j].id != c.entries[i].id);
            }
        }
    }
    assert(c.vectors().dom() =~= c.reverse_map().dom());
    assert forall|n: nat| #[trigger] c.vectors().contains_key(n) implies n < c.next_id
        && c.vectors()[n].len() == c.dimensions by {
        let i = c.stored_slot(n);
        assert(c.entries[i].internal_id < c.next_id);
    }
    assert forall|x: Seq<char>| #[trigger] c.tombstones().contains(x) implies c.id_map().contains_key(
        x,
    ) by {
        let i = choose|i: int|
            0 <= i < c.entries.len() && (#[trigger] c.entries[i]).id == x && c.entries[i].deleted;
    }
    assert forall|x: Seq<char>| #[trigger] c.live_ids().contains(x) implies c.index_contents().contains(
        (c.id_map()[x], c.vectors()[c.id_map()[x]]),
    ) by {
        let i = choose|i: int|
            0 <= i < c.entries.len() && (#[trigger] c.entries[i]).id == x && !c.entries[i].deleted;
        let s = c.slot(x);
        assert(i == s) by {
            if i < s {
                assert(c.entries[i].id != c.entries[s].id);
            } else if s < i {
                assert(c.entries[s].id != c.entries[i].id);
            }
        }
        let n = c.entries[i].internal_id;
        assert(c.stores(n));
        let j = c.stored_slot(n);
        assert(i == j) by {
            if i < j {
                assert(c.entries[i].internal_id < c.entries[j].internal_id);
            } else if j < i {
                assert(c.entries[j].internal_id < c.entries[i].internal_id);
            }
        }
        let live = c.entries.filter(is_live_entry());
        lemma_filter_members(c.entries, is_live_entry());
        assert(c.entries.contains(c.entries[i]));
        assert(live.contains(c.entries[i]));
        let k = choose|k: int| 0 <= k < live.len() && live[k] == c.entries[i];
        assert(c.index_contents()[k] == (n, c.entries[i].vector));
    }
}

} // verus!
