//! What holds of a collection after a run of insertions and deletions, and
//! of what its searches return.

use vstd::prelude::*;
use crate::collection::refusal;
use crate::identity::{
    lemma_compacted_states, lemma_compacted_wf, lemma_counts, lemma_deleted_states,
    lemma_deleted_wf, lemma_inserted_states, lemma_inserted_wf,
};
use crate::model::{lemma_hits_prefix, CollectionView, EntryView, Neighbour, SearchResultView};
use crate::ranking::{arranged, comes_before, lemma_arranged, order_key};

verus! {

/// A change that a caller makes to a collection.
pub enum Operation {
    /// Store `vector` under `id`.
    Insert { id: Seq<char>, vector: Seq<u32> },
    /// Delete `id`.
    Delete { id: Seq<char> },
}

/// Whether `op` stores a vector under `id` in a collection for vectors of
/// `dimensions` components: it is an insertion under `id` that the
/// collection does not refuse.
pub open spec fn stores(dimensions: nat, op: Operation, id: Seq<char>) -> bool {
    match op {
        Operation::Insert { id: x, vector } => x == id && refusal(dimensions, vector) is None,
        Operation::Delete { id: x } => false,
    }
}

/// Whether `op` deletes `id`.
pub open spec fn deletes(op: Operation, id: Seq<char>) -> bool {
    match op {
        Operation::Insert { id: x, vector } => false,
        Operation::Delete { id: x } => x == id,
    }
}

/// The state after one change: an insertion that the collection refuses
/// changes nothing.
pub open spec fn step(c: CollectionView, op: Operation) -> CollectionView {
    match op {
        Operation::Insert { id, vector } => if refusal(c.dimensions, vector) is None {
            c.inserted(id, vector)
        } else {
            c
        },
        Operation::Delete { id } => c.deleted(id),
    }
}

/// The state after a run of changes, made in their order.
pub open spec fn replay(c: CollectionView, ops: Seq<Operation>) -> CollectionView
    decreases ops.len(),
{
    if ops.len() == 0 {
        c
    } else {
        step(replay(c, ops.drop_last()), ops.last())
    }
}

/// Whether `id` was stored by one of `ops` and not deleted by a later one.
pub open spec fn survives(dimensions: nat, ops: Seq<Operation>, id: Seq<char>) -> bool {
    exists|i: int|
        0 <= i < ops.len() && stores(dimensions, #[trigger] ops[i], id) && forall|j: int|
            i < j < ops.len() ==> !deletes(#[trigger] ops[j], id)
}

/// Whether none of `ops` deletes `id`.
pub open spec fn never_deleted(ops: Seq<Operation>, id: Seq<char>) -> bool {
    forall|j: int| 0 <= j < ops.len() ==> !deletes(#[trigger] ops[j], id)
}

/// The identifiers that were stored by one of `ops` and not deleted by a
/// later one.
pub open spec fn survivors(dimensions: nat, ops: Seq<Operation>) -> Set<Seq<char>> {
    Set::new(|id: Seq<char>| survives(dimensions, ops, id))
}

/// One more change lets an identifier survive if it stores it, and else if
/// the identifier survived before and the change does not delete it.
pub proof fn lemma_survives_push(
    dimensions: nat,
    ops: Seq<Operation>,
    op: Operation,
    id: Seq<char>,
)
    ensures
        survives(dimensions, ops.push(op), id) == (stores(dimensions, op, id) || (survives(
            dimensions,
            ops,
            id,
        ) && !deletes(op, id))),
        never_deleted(ops.push(op), id) == (never_deleted(ops, id) && !deletes(op, id)),
{
    let all = ops.push(op);
    let n = ops.len() as int;
    assert(all[n] == op);
    assert forall|j: int| 0 <= j < n implies all[j] == ops[j] by {}
    if stores(dimensions, op, id) {
        assert(stores(dimensions, all[n], id));
        assert(survives(dimensions, all, id));
    }
    if survives(dimensions, ops, id) && !deletes(op, id) {
        let i = choose|i: int|
            0 <= i < ops.len() && stores(dimensions, #[trigger] ops[i], id) && forall|j: int|
                i < j < ops.len() ==> !deletes(#[trigger] ops[j], id);
        assert(stores(dimensions, all[i], id));
        assert forall|j: int| i < j < all.len() implies !deletes(#[trigger] all[j], id) by {
            if j < n {
                assert(all[j] == ops[j]);
            }
        }
        assert(survives(dimensions, all, id));
    }
    if survives(dimensions, all, id) && !stores(dimensions, op, id) {
        let i = choose|i: int|
            0 <= i < all.len() && stores(dimensions, #[trigger] all[i], id) && forall|j: int|
                i < j < all.len() ==> !deletes(#[trigger] all[j], id);
        assert(i < n);
        assert(stores(dimensions, ops[i], id));
        assert(!deletes(all[n], id));
        assert forall|j: int| i < j < ops.len() implies !deletes(#[trigger] ops[j], id) by {
            assert(all[j] == ops[j]);
        }
        assert(survives(dimensions, ops, id));
    }
    if never_deleted(all, id) {
        assert(!deletes(all[n], id));
        assert forall|j: int| 0 <= j < ops.len() implies !deletes(#[trigger] ops[j], id) by {
            assert(all[j] == ops[j]);
        }
    }
    if never_deleted(ops, id) && !deletes(op, id) {
        assert forall|j: int| 0 <= j < all.len() implies !deletes(#[trigger] all[j], id) by {
            if j < n {
                assert(all[j] == ops[j]);
            }
        }
    }
}

/// A collection keeps its invariants, its vector length and its path
/// through every run of changes that it takes.
pub proof fn lemma_replay_wf(c: CollectionView, ops: Seq<Operation>)
    requires
        c.wf(),
    ensures
        replay(c, ops).wf(),
        replay(c, ops).dimensions == c.dimensions,
        replay(c, ops).path == c.path,
        replay(c, ops).next_id >= c.next_id,
    decreases ops.len(),
{
    if ops.len() > 0 {
        let before = replay(c, ops.drop_last());
        lemma_replay_wf(c, ops.drop_last());
        match ops.last() {
            Operation::Insert { id, vector } => {
                if refusal(before.dimensions, vector) is None {
                    lemma_inserted_wf(before, id, vector);
                }
            },
            Operation::Delete { id } => {
                lemma_deleted_wf(before, id);
            },
        }
    }
}

/// After a run of changes an identifier is live exactly if one of them
/// stored it and no later one deleted it, or if it was live before and none
/// of them deleted it.
pub proof fn lemma_replay_live(c: CollectionView, ops: Seq<Operation>, id: Seq<char>)
    requires
        c.wf(),
    ensures
        replay(c, ops).is_live(id) == (survives(c.dimensions, ops, id) || (c.is_live(id)
            && never_deleted(ops, id))),
    decreases ops.len(),
{
    if ops.len() > 0 {
        let head = ops.drop_last();
        let before = replay(c, head);
        lemma_replay_wf(c, head);
        lemma_replay_live(c, head, id);
        lemma_survives_push(c.dimensions, head, ops.last(), id);
        assert(head.push(ops.last()) =~= ops);
        match ops.last() {
            Operation::Insert { id: x, vector } => {
                if refusal(before.dimensions, vector) is None {
                    lemma_inserted_states(before, x, vector);
                    if x != id {
                        assert(before.inserted(x, vector).state_of(id) == before.state_of(id));
                    }
                }
            },
            Operation::Delete { id: x } => {
                lemma_deleted_states(before, x);
                if x != id {
                    assert(before.deleted(x).state_of(id) == before.state_of(id));
                }
            },
        }
    }
}

/// After any run of inserts and deletes on a new collection and a
/// checkpoint, the number of live entries is the number of identifiers that
/// were stored and not deleted afterwards. It is the same before the
/// checkpoint.
pub proof fn lemma_active_count_after_checkpoint(
    path: Seq<char>,
    dimensions: nat,
    ops: Seq<Operation>,
)
    ensures
        survivors(dimensions, ops).finite(),
        replay(CollectionView::empty(path, dimensions), ops).compacted().active_count()
            == survivors(dimensions, ops).len(),
        replay(CollectionView::empty(path, dimensions), ops).active_count() == survivors(
            dimensions,
            ops,
        ).len(),
{
    let start = CollectionView::empty(path, dimensions);
    let end = replay(start, ops);
    lemma_replay_wf(start, ops);
    lemma_compacted_wf(end);
    lemma_compacted_states(end);
    lemma_counts(end);
    lemma_counts(end.compacted());
    assert forall|id: Seq<char>| end.is_live(id) == survives(dimensions, ops, id) by {
        lemma_replay_live(start, ops, id);
    }
    assert forall|id: Seq<char>| end.compacted().is_live(id) == survives(dimensions, ops, id) by {
        assert(end.compacted().state_of(id) is Live == end.state_of(id) is Live);
    }
    assert(end.live_ids() =~= survivors(dimensions, ops));
    assert(end.compacted().live_ids() =~= survivors(dimensions, ops));
}

/// Every result of a search belongs to a live entry, and there are no more
/// results than were asked for or than there are candidates.
pub proof fn lemma_results_are_live(c: CollectionView, neighbours: Seq<Neighbour>, k: nat)
    ensures
        forall|h: int|
            0 <= h < c.search_results(neighbours, k).len() ==> c.is_live(
                (#[trigger] c.search_results(neighbours, k)[h]).id,
            ),
        c.search_results(neighbours, k).len() <= k,
        c.search_results(neighbours, k).len() <= neighbours.len(),
{
    let ordered = arranged(neighbours);
    let all = c.hits(ordered);
    let results = c.search_results(neighbours, k);
    assert forall|h: int| 0 <= h < results.len() implies c.is_live((#[trigger] results[h]).id) by {
        assert(results[h] == all[h]);
        assert(all.contains(all[h]));
        ordered.lemma_filter_map_contains(c.hit_fn(), all[h]);
        let t = choose|t: Neighbour| #[trigger] ordered.contains(t) && c.hit_fn()(t) == Some(all[h]);
        assert(c.indexes(t.internal_id as nat));
        let i = c.indexed_slot(t.internal_id as nat);
        assert(c.entries[i].id == all[h].id && !c.entries[i].deleted);
    }
    lemma_hits_len(c, ordered);
    lemma_arranged(neighbours);
}

/// A collection without live entries returns nothing, whatever the index
/// gives.
pub proof fn lemma_nothing_live_nothing_found(
    c: CollectionView,
    neighbours: Seq<Neighbour>,
    k: nat,
)
    requires
        c.wf(),
        c.active_count() == 0,
    ensures
        c.search_results(neighbours, k).len() == 0,
{
    let results = c.search_results(neighbours, k);
    lemma_results_are_live(c, neighbours, k);
    lemma_counts(c);
    if results.len() > 0 {
        assert(c.live_ids().contains(results[0].id));
    }
}

/// A run of candidates stands for no more results than it is long.
pub proof fn lemma_hits_len(c: CollectionView, neighbours: Seq<Neighbour>)
    ensures
        c.hits(neighbours).len() <= neighbours.len(),
    decreases neighbours.len(),
{
    if neighbours.len() > 0 {
        lemma_hits_len(c, neighbours.drop_last());
    }
}

/// The results of candidates in ascending order of distance are in
/// ascending order of distance.
pub proof fn lemma_hits_ascend(c: CollectionView, neighbours: Seq<Neighbour>)
    requires
        forall|i: int, j: int|
            0 <= i < j < neighbours.len() ==> order_key((#[trigger] neighbours[i]).distance)
                <= order_key((#[trigger] neighbours[j]).distance),
    ensures
        forall|i: int, j: int|
            0 <= i < j < c.hits(neighbours).len() ==> order_key(
                (#[trigger] c.hits(neighbours)[i]).distance,
            ) <= order_key((#[trigger] c.hits(neighbours)[j]).distance),
        forall|h: int|
            0 <= h < c.hits(neighbours).len() ==> exists|t: int|
                0 <= t < neighbours.len() && (#[trigger] neighbours[t]).distance == (
                #[trigger] c.hits(neighbours)[h]).distance,
    decreases neighbours.len(),
{
    if neighbours.len() > 0 {
        let head = neighbours.drop_last();
        lemma_hits_ascend(c, head);
        let before = c.hits(head);
        let all = c.hits(neighbours);
        assert forall|h: int| 0 <= h < all.len() implies exists|t: int|
            0 <= t < neighbours.len() && (#[trigger] neighbours[t]).distance == (
            #[trigger] all[h]).distance by {
            if h < before.len() {
                assert(all[h] == before[h]);
                let t = choose|t: int|
                    0 <= t < head.len() && (#[trigger] head[t]).distance == before[h].distance;
                assert(neighbours[t].distance == all[h].distance);
            } else {
                assert(neighbours[neighbours.len() - 1].distance == all[h].distance);
            }
        }
        assert forall|i: int, j: int| 0 <= i < j < all.len() implies order_key(
            (#[trigger] all[i]).distance,
        ) <= order_key((#[trigger] all[j]).distance) by {
            if j < before.len() {
                assert(all[i] == before[i] && all[j] == before[j]);
            } else {
                assert(all[i] == before[i]);
                let t = choose|t: int|
                    0 <= t < head.len() && (#[trigger] head[t]).distance == before[i].distance;
                assert(neighbours[t].distance == all[i].distance);
                assert(all[j].distance == neighbours[neighbours.len() - 1].distance);
            }
        }
    }
}

/// The results of a search are in ascending order of distance, which is the
/// descending order of similarity.
pub proof fn lemma_results_ascend(c: CollectionView, neighbours: Seq<Neighbour>, k: nat)
    ensures
        forall|i: int, j: int|
            0 <= i < j < c.search_results(neighbours, k).len() ==> order_key(
                (#[trigger] c.search_results(neighbours, k)[i]).distance,
            ) <= order_key((#[trigger] c.search_results(neighbours, k)[j]).distance),
{
    let ordered = arranged(neighbours);
    lemma_arranged(neighbours);
    assert forall|i: int, j: int| 0 <= i < j < ordered.len() implies order_key(
        (#[trigger] ordered[i]).distance,
    ) <= order_key((#[trigger] ordered[j]).distance) by {
        assert(comes_before(ordered[i], ordered[j]));
    }
    lemma_hits_ascend(c, ordered);
    let all = c.hits(ordered);
    let results = c.search_results(neighbours, k);
    assert forall|i: int, j: int| 0 <= i < j < results.len() implies order_key(
        (#[trigger] results[i]).distance,
    ) <= order_key((#[trigger] results[j]).distance) by {
        assert(results[i] == all[i] && results[j] == all[j]);
    }
}

/// After `id` was deleted no search returns it, whatever the index gives,
/// until a vector is stored under it again.
pub proof fn lemma_deleted_stays_hidden(
    c: CollectionView,
    id: Seq<char>,
    ops: Seq<Operation>,
    neighbours: Seq<Neighbour>,
    k: nat,
)
    requires
        c.wf(),
        forall|i: int| 0 <= i < ops.len() ==> !stores(c.dimensions, #[trigger] ops[i], id),
    ensures
        !replay(c.deleted(id), ops).is_live(id),
        forall|h: int|
            0 <= h < replay(c.deleted(id), ops).search_results(neighbours, k).len() ==> (
            #[trigger] replay(c.deleted(id), ops).search_results(neighbours, k)[h]).id != id,
{
    let start = c.deleted(id);
    lemma_deleted_wf(c, id);
    lemma_deleted_states(c, id);
    lemma_replay_live(start, ops, id);
    lemma_results_are_live(replay(start, ops), neighbours, k);
    assert(!start.is_live(id));
    assert(!survives(start.dimensions, ops, id));
}

/// A candidate that belongs to a live entry is returned with that entry's
/// identifier if fewer than `k` candidates of live entries come before it
/// in the order of distance.
pub proof fn lemma_live_candidate_is_returned(
    c: CollectionView,
    neighbours: Seq<Neighbour>,
    k: nat,
    j: int,
)
    requires
        0 <= j < arranged(neighbours).len(),
        c.indexes(arranged(neighbours)[j].internal_id as nat),
        c.hits(arranged(neighbours).take(j)).len() < k,
    ensures
        c.search_results(neighbours, k).contains(c.hit_of(arranged(neighbours)[j])->0),
{
    let ordered = arranged(neighbours);
    let before = c.hits(ordered.take(j));
    let upto = c.hits(ordered.take(j + 1));
    let all = c.hits(ordered);
    ordered.lemma_filter_map_take_succ(c.hit_fn(), j);
    lemma_hits_prefix(c, ordered, j + 1, ordered.len() as int);
    assert(ordered.take(ordered.len() as int) =~= ordered);
    let at = before.len() as int;
    assert(upto[at] == c.hit_of(ordered[j])->0);
    assert(all.take(upto.len() as int)[at] == upto[at]);
    assert(c.search_results(neighbours, k)[at] == all[at]);
}

/// After a vector was stored under `id`, a search returns `id` whenever the
/// new internal identifier is among the candidates that the index gives and
/// fewer than `k` candidates of live entries come before it in the order of
/// distance.
pub proof fn lemma_inserted_is_found(
    c: CollectionView,
    id: Seq<char>,
    vector: Seq<u32>,
    neighbours: Seq<Neighbour>,
    k: nat,
    j: int,
)
    requires
        c.wf(),
        vector.len() == c.dimensions,
        0 <= j < arranged(neighbours).len(),
        arranged(neighbours)[j].internal_id == c.next_id,
        c.inserted(id, vector).hits(arranged(neighbours).take(j)).len() < k,
    ensures
        c.inserted(id, vector).search_results(neighbours, k).contains(
            SearchResultView { id, distance: arranged(neighbours)[j].distance },
        ),
{
    let after = c.inserted(id, vector);
    lemma_inserted_wf(c, id, vector);
    lemma_inserted_states(c, id, vector);
    let last = after.entries.len() - 1;
    assert(after.entries[last].internal_id == c.next_id && !after.entries[last].deleted);
    assert(after.indexes(c.next_id));
    let slot = after.indexed_slot(c.next_id);
    assert(slot == last) by {
        if slot < last {
            assert(after.entries[slot].internal_id < after.entries[last].internal_id);
        }
    }
    lemma_live_candidate_is_returned(after, neighbours, k, j);
}

/// Storing two vectors under one identifier, one after the other, leaves
/// one entry of that identifier: it is live and holds the second vector,
/// whenever the collection takes the second vector.
pub proof fn lemma_upsert(c: CollectionView, id: Seq<char>, first: Seq<u32>, second: Seq<u32>)
    requires
        c.wf(),
        refusal(c.dimensions, second) is None,
    ensures
        ({
            let once = step(c, Operation::Insert { id, vector: first });
            let twice = step(once, Operation::Insert { id, vector: second });
            &&& twice.state_of(id) is Live
            &&& forall|i: int, j: int|
                0 <= i < twice.entries.len() && 0 <= j < twice.entries.len() && (
                #[trigger] twice.entries[i]).id == id && (#[trigger] twice.entries[j]).id == id
                    ==> i == j
            &&& twice.entries.last() == (EntryView {
                id,
                internal_id: once.next_id,
                vector: second,
                deleted: false,
            })
        }),
{
    let once = step(c, Operation::Insert { id, vector: first });
    if refusal(c.dimensions, first) is None {
        lemma_inserted_wf(c, id, first);
    }
    lemma_inserted_states(once, id, second);
}

} // verus!
