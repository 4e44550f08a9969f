//! What is stored of a collection, and how a collection is read back from
//! it.

use std::collections::HashMap;
use vstd::prelude::*;
use crate::collection::{entry_views, Collection, Entry};
use crate::decimal::{
    decimal_string, decimal_text, lemma_parse_decimal_text, parse_decimal, parsed_decimal,
};
use crate::encoding::{base64_bytes, base64_text, decode_base64, encode_base64};
use crate::error::Error;
use crate::identity::{
    entry_id, lemma_compacted_states, lemma_compacted_wf, lemma_filter_members,
    lemma_filter_split,
};
use crate::lookup::{text_views, TextTable};
use crate::model::{
    ascending, is_live_entry, is_tombstone, lemma_filter_keeps_all, CollectionView, EntryView,
    Neighbour,
};
use crate::ranking::arranged;
use crate::vector::{
    le_bytes, le_words, lemma_words_of_bytes, storable_dimensions, words_from_le_bytes,
    words_to_le_bytes,
};

verus! {

broadcast use vstd::std_specs::hash::group_hash_axioms;

/// The name of the file, in a collection's directory, that holds what is
/// stored of the collection.
pub const METADATA_FILE: &'static str = "metadata.json";

/// One line of the stored identifier map: a caller's identifier and the
/// internal identifier that it stands for.
#[derive(Debug)]
pub struct IdMapping {
    /// The caller's identifier.
    pub id: String,
    /// The internal identifier.
    pub internal_id: usize,
}

/// One stored vector: its internal identifier in decimal notation, and the
/// base64 text of its little-endian bytes.
#[derive(Debug)]
pub struct StoredVector {
    /// The internal identifier in decimal notation.
    pub key: String,
    /// The base64 text of the components' little-endian bytes.
    pub payload: String,
}

/// What is stored of a collection.
#[derive(Debug)]
pub struct Metadata {
    /// The length of every vector.
    pub dimensions: usize,
    /// The state of the identifier allocator.
    pub next_id: usize,
    /// The internal identifier of every caller's identifier.
    pub id_map: Vec<IdMapping>,
    /// The caller's identifiers that are tombstoned.
    pub deleted_ids: Vec<String>,
    /// The vector of every internal identifier.
    pub vectors: Vec<StoredVector>,
}

/// What is stored of a collection, as the contracts see it.
pub struct MetadataView {
    pub dimensions: nat,
    pub next_id: nat,
    pub id_map: Seq<(Seq<char>, nat)>,
    pub deleted_ids: Seq<Seq<char>>,
    pub vectors: Seq<(Seq<char>, Seq<char>)>,
}

/// The plain values of the lines of an identifier map.
pub open spec fn mapping_views(lines: Seq<IdMapping>) -> Seq<(Seq<char>, nat)> {
    lines.map_values(|m: IdMapping| (m.id@, m.internal_id as nat))
}

/// The plain values of a run of stored vectors.
pub open spec fn stored_views(vectors: Seq<StoredVector>) -> Seq<(Seq<char>, Seq<char>)> {
    vectors.map_values(|v: StoredVector| (v.key@, v.payload@))
}

impl View for Metadata {
    type V = MetadataView;

    open spec fn view(&self) -> MetadataView {
        MetadataView {
            dimensions: self.dimensions as nat,
            next_id: self.next_id as nat,
            id_map: mapping_views(self.id_map@),
            deleted_ids: text_views(self.deleted_ids@),
            vectors: stored_views(self.vectors@),
        }
    }
}

/// An entry's line in the identifier map.
pub open spec fn mapping_of() -> spec_fn(EntryView) -> (Seq<char>, nat) {
    |e: EntryView| (e.id, e.internal_id)
}

/// An entry's stored vector.
pub open spec fn stored_of() -> spec_fn(EntryView) -> (Seq<char>, Seq<char>) {
    |e: EntryView| (decimal_text(e.internal_id), base64_text(le_bytes(e.vector)))
}

/// What is stored of the collection `c`: a line for every entry, the
/// identifiers of the tombstoned ones, and every entry's vector, all in
/// ascending order of internal identifier.
pub open spec fn snapshot(c: CollectionView) -> MetadataView {
    MetadataView {
        dimensions: c.dimensions,
        next_id: c.next_id,
        id_map: c.entries.map_values(mapping_of()),
        deleted_ids: c.entries.filter(is_tombstone()).map_values(entry_id()),
        vectors: c.entries.map_values(stored_of()),
    }
}

impl MetadataView {
    /// Whether stored vector `j` is kept under the internal identifier `n`.
    pub open spec fn key_is(self, j: int, n: nat) -> bool {
        parsed_decimal(self.vectors[j].0) == Some(n as usize) && n <= usize::MAX
    }

    /// The bytes of stored vector `j`, where its text is base64.
    pub open spec fn bytes_of(self, j: int) -> Option<Seq<u8>> {
        base64_bytes(self.vectors[j].1)
    }

    /// Every stored vector has a number for its key and base64 text of four
    /// bytes for each component.
    pub open spec fn vectors_readable(self) -> bool {
        forall|j: int|
            0 <= j < self.vectors.len() ==> parsed_decimal((#[trigger] self.vectors[j]).0) is Some
                && self.bytes_of(j) is Some && self.bytes_of(j)->0.len() == 4 * self.dimensions
    }

    /// No two stored vectors are kept under the same internal identifier.
    pub open spec fn keys_distinct(self) -> bool {
        forall|i: int, j: int|
            0 <= i < j < self.vectors.len() ==> parsed_decimal((#[trigger] self.vectors[i]).0)
                != parsed_decimal((#[trigger] self.vectors[j]).0)
    }

    /// No identifier, of either side, occurs in two lines of the identifier
    /// map.
    pub open spec fn ids_distinct(self) -> bool {
        forall|i: int, j: int|
            0 <= i < j < self.id_map.len() ==> (#[trigger] self.id_map[i]).0 != (
            #[trigger] self.id_map[j]).0 && self.id_map[i].1 != self.id_map[j].1
    }

    /// Whether a vector is stored under the internal identifier `n`.
    pub open spec fn has_vector(self, n: nat) -> bool {
        exists|j: int| 0 <= j < self.vectors.len() && #[trigger] self.key_is(j, n)
    }

    /// Every internal identifier of the map was issued by the allocator and
    /// has a stored vector.
    pub open spec fn ids_backed(self) -> bool {
        forall|i: int|
            0 <= i < self.id_map.len() ==> (#[trigger] self.id_map[i]).1 < self.next_id
                && self.has_vector(self.id_map[i].1)
    }

    /// Whether a line of the identifier map holds the caller's identifier
    /// `id`.
    pub open spec fn maps(self, id: Seq<char>) -> bool {
        exists|i: int| 0 <= i < self.id_map.len() && (#[trigger] self.id_map[i]).0 == id
    }

    /// Every tombstoned identifier has a line in the identifier map.
    pub open spec fn tombstones_known(self) -> bool {
        forall|i: int| 0 <= i < self.deleted_ids.len() ==> self.maps(#[trigger] self.deleted_ids[i])
    }

    /// Whether the stored values describe a collection: the vectors can be
    /// read, identifiers and vectors are paired one to one, and only known
    /// identifiers are tombstoned.
    pub open spec fn restorable(self) -> bool {
        &&& self.vectors_readable()
        &&& self.keys_distinct()
        &&& self.ids_distinct()
        &&& self.id_map.len() == self.vectors.len()
        &&& self.ids_backed()
        &&& self.tombstones_known()
    }

    /// The position of the vector stored under the internal identifier `n`.
    pub open spec fn vector_slot(self, n: nat) -> int {
        choose|j: int| 0 <= j < self.vectors.len() && #[trigger] self.key_is(j, n)
    }

    /// The entry that line `i` of the identifier map stands for: the line's
    /// identifiers, the vector stored under its internal identifier, and
    /// whether its identifier is tombstoned.
    pub open spec fn record(self, i: int) -> EntryView {
        EntryView {
            id: self.id_map[i].0,
            internal_id: self.id_map[i].1,
            vector: le_words(self.bytes_of(self.vector_slot(self.id_map[i].1))->0),
            deleted: self.deleted_ids.contains(self.id_map[i].0),
        }
    }

    /// Whether `e` is the entry that some line of the identifier map stands
    /// for.
    pub open spec fn is_record(self, e: EntryView) -> bool {
        exists|i: int| 0 <= i < self.id_map.len() && #[trigger] self.record(i) == e
    }

    /// Whether `c` is the collection that the stored values describe: it has
    /// their vector length and allocator state, and its entries are the
    /// entries that the lines of the identifier map stand for, one for each
    /// line.
    pub open spec fn describes(self, c: CollectionView) -> bool {
        &&& c.dimensions == self.dimensions
        &&& c.next_id == self.next_id
        &&& c.entries.len() == self.id_map.len()
        &&& forall|i: int| 0 <= i < self.id_map.len() ==> c.entries.contains(#[trigger] self.record(i))
        &&& forall|k: int| 0 <= k < c.entries.len() ==> self.is_record(#[trigger] c.entries[k])
    }
}

/// What is stored of a collection describes that collection, once the text
/// of every vector is known to decode to the vector's bytes.
pub proof fn lemma_snapshot_describes(c: CollectionView, m: MetadataView)
    requires
        c.wf(),
        m == snapshot(c),
        forall|j: int|
            0 <= j < c.entries.len() ==> (#[trigger] c.entries[j]).internal_id <= usize::MAX,
        forall|j: int|
            0 <= j < c.entries.len() ==> base64_bytes((#[trigger] m.vectors[j]).1) == Some(
                le_bytes(c.entries[j].vector),
            ),
    ensures
        m.restorable(),
        m.describes(c),
{
    let tombs = c.entries.filter(is_tombstone());
    assert forall|j: int| 0 <= j < m.vectors.len() implies parsed_decimal(
        (#[trigger] m.vectors[j]).0,
    ) == Some(c.entries[j].internal_id as usize) && m.bytes_of(j) == Some(
        le_bytes(c.entries[j].vector),
    ) && m.bytes_of(j)->0.len() == 4 * m.dimensions by {
        lemma_parse_decimal_text(c.entries[j].internal_id as usize);
        lemma_words_of_bytes(c.entries[j].vector);
    }
    assert(m.vectors_readable());
    assert(m.keys_distinct());
    assert(m.ids_distinct());
    assert forall|i: int| 0 <= i < m.id_map.len() implies (#[trigger] m.id_map[i]).1 < m.next_id
        && m.has_vector(m.id_map[i].1) by {
        assert(c.entries[i].internal_id < c.next_id);
        assert(m.key_is(i, m.id_map[i].1));
    }
    assert forall|i: int| 0 <= i < m.deleted_ids.len() implies m.maps(
        #[trigger] m.deleted_ids[i],
    ) by {
        c.entries.lemma_filter_contains_rev(is_tombstone(), tombs[i]);
        let j = choose|j: int| 0 <= j < c.entries.len() && c.entries[j] == tombs[i];
        assert(m.id_map[j].0 == m.deleted_ids[i]);
    }
    assert forall|i: int| 0 <= i < m.id_map.len() implies c.entries.contains(
        #[trigger] m.record(i),
    ) by {
        let n = m.id_map[i].1;
        assert(m.key_is(i, n));
        let slot = m.vector_slot(n);
        assert(m.key_is(slot, n));
        assert(parsed_decimal(m.vectors[slot].0) == Some(c.entries[slot].internal_id as usize));
        assert(slot == i);
        lemma_words_of_bytes(c.entries[i].vector);
        if c.entries[i].deleted {
            c.entries.lemma_filter_contains(is_tombstone(), i);
            let k = choose|k: int| 0 <= k < tombs.len() && tombs[k] == c.entries[i];
            assert(m.deleted_ids[k] == m.id_map[i].0);
        }
        if m.deleted_ids.contains(m.id_map[i].0) {
            let k = choose|k: int|
                0 <= k < m.deleted_ids.len() && m.deleted_ids[k] == m.id_map[i].0;
            c.entries.lemma_filter_pred(is_tombstone(), k);
            c.entries.lemma_filter_contains_rev(is_tombstone(), tombs[k]);
            let j = choose|j: int| 0 <= j < c.entries.len() && c.entries[j] == tombs[k];
            assert(j == i);
        }
        assert(m.record(i) == c.entries[i]);
    }
    assert forall|k: int| 0 <= k < c.entries.len() implies m.is_record(#[trigger] c.entries[k]) by {
        assert(c.entries.contains(m.record(k)));
        assert(m.record(k).internal_id == c.entries[k].internal_id);
        let j = choose|j: int| 0 <= j < c.entries.len() && c.entries[j] == m.record(k);
        assert(j == k);
    }
}

/// What is to be stored of `collection`. The result describes the
/// collection: loading it gives the same entries, vector length and
/// allocator state.
pub fn save_collection(collection: &Collection) -> (metadata: Metadata)
    requires
        collection.wf(),
    ensures
        metadata@ == snapshot(collection@),
        metadata@.restorable(),
        metadata@.describes(collection@),
{
    let entries: &Vec<Entry> = collection.entries();
    let ghost all = collection@.entries;
    let mut id_map: Vec<IdMapping> = Vec::new();
    let mut deleted_ids: Vec<String> = Vec::new();
    let mut vectors: Vec<StoredVector> = Vec::new();
    let mut i: usize = 0;
    proof {
        assert(all.take(0) =~= Seq::<EntryView>::empty());
        assert(all.take(0).filter(is_tombstone()) =~= Seq::<EntryView>::empty()) by {
            reveal(Seq::filter);
        }
        assert(mapping_views(id_map@) =~= all.take(0).map_values(mapping_of()));
        assert(text_views(deleted_ids@) =~= all.take(0).filter(is_tombstone()).map_values(entry_id()));
        assert(stored_views(vectors@) =~= all.take(0).map_values(stored_of()));
    }
    while i < entries.len()
        invariant
            collection.wf(),
            all == collection@.entries,
            all == entry_views(entries@),
            i <= entries.len(),
            mapping_views(id_map@) == all.take(i as int).map_values(mapping_of()),
            text_views(deleted_ids@) == all.take(i as int).filter(is_tombstone()).map_values(
                entry_id(),
            ),
            stored_views(vectors@) == all.take(i as int).map_values(stored_of()),
            forall|j: int|
                0 <= j < i ==> base64_bytes((#[trigger] stored_views(vectors@)[j]).1) == Some(
                    le_bytes(all[j].vector),
                ),
        decreases entries.len() - i,
    {
        let entry: &Entry = &entries[i];
        let ghost e = all[i as int];
        assert(e == entry@);
        let ghost old_map = mapping_views(id_map@);
        let ghost old_deleted = text_views(deleted_ids@);
        let ghost old_vectors = stored_views(vectors@);
        proof {
            let head = all.take(i as int);
            head.lemma_filter_push(e, is_tombstone());
            assert(head.push(e) =~= all.take(i + 1));
        }
        id_map.push(IdMapping { id: entry.id.clone(), internal_id: entry.internal_id });
        assert(mapping_views(id_map@) =~= old_map.push(mapping_of()(e)));
        if entry.deleted {
            deleted_ids.push(entry.id.clone());
            assert(text_views(deleted_ids@) =~= old_deleted.push(e.id));
        }
        assert(e.vector.len() == collection@.dimensions);
        let bytes: Vec<u8> = words_to_le_bytes(&entry.vector);
        let payload: String = encode_base64(&bytes);
        let key: String = decimal_string(entry.internal_id);
        vectors.push(StoredVector { key, payload });
        assert(stored_views(vectors@) =~= old_vectors.push(stored_of()(e)));
        assert(mapping_views(id_map@) =~= all.take(i + 1).map_values(mapping_of()));
        assert(text_views(deleted_ids@) =~= all.take(i + 1).filter(is_tombstone()).map_values(
            entry_id(),
        ));
        assert(stored_views(vectors@) =~= all.take(i + 1).map_values(stored_of()));
        i += 1;
    }
    let metadata = Metadata {
        dimensions: collection.dimensions(),
        next_id: collection.next_id(),
        id_map,
        deleted_ids,
        vectors,
    };
    proof {
        assert(all.take(entries.len() as int) =~= all);
        assert(metadata@.id_map =~= snapshot(collection@).id_map);
        lemma_snapshot_describes(collection@, metadata@);
    }
    metadata
}

/// What a run holds after an insertion: the new element and what it held.
proof fn lemma_insert_holds<A>(s: Seq<A>, p: int, a: A)
    requires
        0 <= p <= s.len(),
    ensures
        s.insert(p, a).len() == s.len() + 1,
        s.insert(p, a).contains(a),
        forall|x: A| s.contains(x) ==> #[trigger] s.insert(p, a).contains(x),
        forall|k: int|
            0 <= k < s.len() + 1 ==> (#[trigger] s.insert(p, a)[k]) == a || s.contains(
                s.insert(p, a)[k],
            ),
{
    let t = s.insert(p, a);
    assert(t[p] == a);
    assert forall|x: A| s.contains(x) implies #[trigger] t.contains(x) by {
        let k = choose|k: int| 0 <= k < s.len() && s[k] == x;
        if k < p {
            assert(t[k] == x);
        } else {
            assert(t[k + 1] == x);
        }
    }
    assert forall|k: int| 0 <= k < s.len() + 1 implies (#[trigger] t[k]) == a || s.contains(
        t[k],
    ) by {
        if k < p {
            assert(s[k] == t[k]);
        } else if k > p {
            assert(s[k - 1] == t[k]);
        }
    }
}

/// The components of the stored vectors, and for every key the position of
/// its vector, where every vector can be read and no key occurs twice.
fn read_vectors(metadata: &Metadata) -> (r: Option<(HashMap<usize, usize>, Vec<Vec<u32>>)>)
    ensures
        r is Some <==> metadata@.vectors_readable() && metadata@.keys_distinct(),
        match r {
            Some(read) => read.1.len() == metadata.vectors.len() && (forall|j: int|
                0 <= j < metadata.vectors.len() ==> parsed_decimal(
                    (#[trigger] metadata@.vectors[j]).0,
                ) is Some && read.0@.contains_key(parsed_decimal(metadata@.vectors[j].0)->0)
                    && read.0@[parsed_decimal(metadata@.vectors[j].0)->0] == j
                    && metadata@.bytes_of(j) is Some && read.1@[j]@ == le_words(
                    metadata@.bytes_of(j)->0,
                )) && (forall|k: usize| #[trigger]
                read.0@.contains_key(k) ==> read.0@[k] < metadata.vectors.len() && parsed_decimal(
                    metadata@.vectors[read.0@[k] as int].0,
                ) == Some(k)),
            None => true,
        },
{
    let ghost m = metadata@;
    let mut slots: HashMap<usize, usize> = HashMap::new();
    let mut words: Vec<Vec<u32>> = Vec::new();
    let mut j: usize = 0;
    while j < metadata.vectors.len()
        invariant
            m == metadata@,
            j <= metadata.vectors.len(),
            words.len() == j,
            forall|t: int|
                0 <= t < j ==> parsed_decimal((#[trigger] m.vectors[t]).0) is Some
                    && slots@.contains_key(parsed_decimal(m.vectors[t].0)->0)
                    && slots@[parsed_decimal(m.vectors[t].0)->0] == t && m.bytes_of(t) is Some
                    && m.bytes_of(t)->0.len() == 4 * m.dimensions && words@[t]@ == le_words(
                    m.bytes_of(t)->0,
                ),
            forall|k: usize| #[trigger]
                slots@.contains_key(k) ==> slots@[k] < j && parsed_decimal(
                    m.vectors[slots@[k] as int].0,
                ) == Some(k),
        decreases metadata.vectors.len() - j,
    {
        let stored: &StoredVector = &metadata.vectors[j];
        assert(m.vectors[j as int] == (stored.key@, stored.payload@));
        let key: usize = match parse_decimal(stored.key.as_str()) {
            Some(key) => key,
            None => {
                assert(!m.vectors_readable());
                return None;
            },
        };
        let bytes: Vec<u8> = match decode_base64(stored.payload.as_str()) {
            Ok(bytes) => bytes,
            Err(_) => {
                assert(m.bytes_of(j as int) is None);
                assert(!m.vectors_readable());
                return None;
            },
        };
        let vector: Vec<u32> = match words_from_le_bytes(&bytes, metadata.dimensions) {
            Some(vector) => vector,
            None => {
                assert(m.bytes_of(j as int)->0.len() != 4 * m.dimensions);
                assert(!m.vectors_readable());
                return None;
            },
        };
        if slots.contains_key(&key) {
            let ghost p = slots@[key] as int;
            assert(parsed_decimal(m.vectors[p].0) == parsed_decimal(m.vectors[j as int].0));
            assert(!m.keys_distinct());
            return None;
        }
        slots.insert(key, j);
        words.push(vector);
        j += 1;
    }
    assert(m.vectors_readable());
    assert(m.keys_distinct()) by {
        assert forall|a: int, b: int| 0 <= a < b < m.vectors.len() implies parsed_decimal(
            (#[trigger] m.vectors[a]).0,
        ) != parsed_decimal((#[trigger] m.vectors[b]).0) by {
            assert(slots@[parsed_decimal(m.vectors[a].0)->0] == a);
            assert(slots@[parsed_decimal(m.vectors[b].0)->0] == b);
        }
    }
    Some((slots, words))
}

/// The tombstoned identifiers as a table.
fn tombstone_table(metadata: &Metadata) -> (table: TextTable)
    ensures
        table.wf(),
        table@ == metadata@.deleted_ids,
{
    let mut table: TextTable = TextTable::new();
    let mut d: usize = 0;
    while d < metadata.deleted_ids.len()
        invariant
            d <= metadata.deleted_ids.len(),
            table.wf(),
            table@ == metadata@.deleted_ids.take(d as int),
        decreases metadata.deleted_ids.len() - d,
    {
        table.push(metadata.deleted_ids[d].as_str());
        assert(metadata@.deleted_ids.take(d as int).push(metadata.deleted_ids[d as int]@)
            =~= metadata@.deleted_ids.take(d + 1));
        d += 1;
    }
    assert(metadata@.deleted_ids.take(metadata.deleted_ids.len() as int)
        =~= metadata@.deleted_ids);
    table
}

/// Puts `entry` where it belongs in the ascending order of internal
/// identifiers.
fn place(entries: &mut Vec<Entry>, entry: Entry)
    requires
        ascending(entry_views(old(entries)@)),
        forall|k: int|
            0 <= k < old(entries).len() ==> (#[trigger] entry_views(old(entries)@)[k]).internal_id
                != entry@.internal_id,
    ensures
        ascending(entry_views(final(entries)@)),
        exists|p: int|
            0 <= p <= old(entries).len() && entry_views(final(entries)@) == entry_views(
                old(entries)@,
            ).insert(p, entry@),
{
    let ghost before = entry_views(entries@);
    let mut p: usize = entries.len();
    while p > 0 && entries[p - 1].internal_id > entry.internal_id
        invariant
            p <= entries.len(),
            before == entry_views(entries@),
            forall|k: int|
                p <= k < entries.len() ==> (#[trigger] before[k]).internal_id > entry@.internal_id,
        decreases p,
    {
        p -= 1;
    }
    entries.insert(p, entry);
    proof {
        let after = entry_views(entries@);
        assert(after =~= before.insert(p as int, entry@));
        assert forall|a: int, b: int| 0 <= a < b < after.len() implies after[a].internal_id
            < after[b].internal_id by {
            if b < p {
            } else if b == p {
                if p > 0 {
                    assert(before[p - 1].internal_id < entry@.internal_id);
                }
            } else {
                if a < p {
                    assert(before[a].internal_id < before[b - 1].internal_id || a == b - 1);
                } else if a > p {
                    assert(before[a - 1].internal_id < before[b - 1].internal_id);
                }
            }
        }
    }
}

/// The caller-side identifiers of the lines of an identifier map.
pub open spec fn line_ids(lines: Seq<(Seq<char>, nat)>) -> Seq<Seq<char>> {
    lines.map_values(|line: (Seq<char>, nat)| line.0)
}

/// The collection that the stored values describe, to be kept under `path`.
/// Values that describe no collection are refused as a corrupt snapshot.
pub fn load_collection(path: String, metadata: &Metadata) -> (r: Result<Collection, Error>)
    requires
        storable_dimensions(metadata@.dimensions),
    ensures
        match r {
            Ok(c) => metadata@.restorable() && c.wf() && c@.path == path@ && !c@.dirty
                && metadata@.describes(c@),
            Err(e) => !metadata@.restorable() && e == Error::CorruptSnapshot,
        },
{
    let ghost m = metadata@;
    let (slots, words) = match read_vectors(metadata) {
        Some(read) => read,
        None => {
            return Err(Error::CorruptSnapshot);
        },
    };
    if metadata.id_map.len() != metadata.vectors.len() {
        return Err(Error::CorruptSnapshot);
    }
    let tombstones: TextTable = tombstone_table(metadata);
    let mut lines: TextTable = TextTable::new();
    let mut seen: HashMap<usize, usize> = HashMap::new();
    let mut entries: Vec<Entry> = Vec::new();
    let mut i: usize = 0;
    assert(lines@ =~= line_ids(m.id_map).take(0));
    while i < metadata.id_map.len()
        invariant
            m == metadata@,
            m.vectors_readable(),
            m.keys_distinct(),
            words.len() == metadata.vectors.len(),
            forall|j: int|
                0 <= j < metadata.vectors.len() ==> parsed_decimal((#[trigger] m.vectors[j]).0) is Some
                    && slots@.contains_key(parsed_decimal(m.vectors[j].0)->0)
                    && slots@[parsed_decimal(m.vectors[j].0)->0] == j && m.bytes_of(j) is Some
                    && words@[j]@ == le_words(m.bytes_of(j)->0),
            forall|k: usize| #[trigger]
                slots@.contains_key(k) ==> slots@[k] < metadata.vectors.len() && parsed_decimal(
                    m.vectors[slots@[k] as int].0,
                ) == Some(k),
            tombstones.wf(),
            tombstones@ == m.deleted_ids,
            lines.wf(),
            lines@ == line_ids(m.id_map).take(i as int),
            forall|t: int| 0 <= t < i ==> seen@.contains_key((#[trigger] m.id_map[t]).1 as usize),
            forall|k: usize| #[trigger]
                seen@.contains_key(k) ==> exists|t: int| 0 <= t < i && (#[trigger] m.id_map[t]).1 == k,
            i <= metadata.id_map.len(),
            entries.len() == i,
            ascending(entry_views(entries@)),
            forall|t: int| 0 <= t < i ==> entry_views(entries@).contains(#[trigger] m.record(t)),
            forall|k: int|
                0 <= k < i ==> exists|t: int|
                    0 <= t < i && (#[trigger] entry_views(entries@)[k]) == m.record(t),
            forall|s: int, t: int|
                0 <= s < t < i ==> (#[trigger] m.id_map[s]).0 != (#[trigger] m.id_map[t]).0
                    && m.id_map[s].1 != m.id_map[t].1,
            forall|t: int|
                0 <= t < i ==> (#[trigger] m.id_map[t]).1 < m.next_id && m.has_vector(
                    m.id_map[t].1,
                ),
        decreases metadata.id_map.len() - i,
    {
        let line: &IdMapping = &metadata.id_map[i];
        let ghost n = line.internal_id as nat;
        assert(m.id_map[i as int] == (line.id@, n));
        if line.internal_id >= metadata.next_id {
            assert(!m.ids_backed());
            return Err(Error::CorruptSnapshot);
        }
        let slot: usize = match slots.get(&line.internal_id) {
            Some(slot) => *slot,
            None => {
                assert forall|j: int| 0 <= j < m.vectors.len() implies !m.key_is(j, n) by {
                    assert(slots@.contains_key(parsed_decimal(m.vectors[j].0)->0));
                }
                assert(!m.has_vector(n));
                assert(!m.ids_backed());
                return Err(Error::CorruptSnapshot);
            },
        };
        match lines.position(line.id.as_str()) {
            Some(t) => {
                assert(line_ids(m.id_map)[t as int] == m.id_map[t as int].0);
                assert(m.id_map[t as int].0 == m.id_map[i as int].0);
                assert(!m.ids_distinct());
                return Err(Error::CorruptSnapshot);
            },
            None => {},
        }
        if seen.contains_key(&line.internal_id) {
            proof {
                let t = choose|t: int|
                    0 <= t < i && (#[trigger] m.id_map[t]).1 == line.internal_id;
                assert(m.id_map[t].1 == m.id_map[i as int].1);
            }
            assert(!m.ids_distinct());
            return Err(Error::CorruptSnapshot);
        }
        assert forall|t: int| 0 <= t < i implies (#[trigger] m.id_map[t]).0 != m.id_map[i as int].0
            && m.id_map[t].1 != m.id_map[i as int].1 by {
            assert(lines@[t] == m.id_map[t].0);
            assert(lines@.contains(m.id_map[t].0));
            assert(seen@.contains_key(m.id_map[t].1 as usize));
        }
        let deleted: bool = tombstones.position(line.id.as_str()).is_some();
        let vector: Vec<u32> = words[slot].clone();
        assert(vector@ =~= words@[slot as int]@);
        let entry = Entry { id: line.id.clone(), internal_id: line.internal_id, vector, deleted };
        let ghost before = entry_views(entries@);
        proof {
            assert(m.key_is(slot as int, n));
            let chosen = m.vector_slot(n);
            assert(m.key_is(chosen, n));
            assert(parsed_decimal(m.vectors[chosen].0) == parsed_decimal(
                m.vectors[slot as int].0,
            ));
            assert(chosen == slot);
            assert(entry@ == m.record(i as int));
            assert forall|k: int| 0 <= k < i implies (#[trigger] before[k]).internal_id != n by {
                let t = choose|t: int| 0 <= t < i && before[k] == m.record(t);
                assert(m.id_map[t].1 != m.id_map[i as int].1);
            }
        }
        place(&mut entries, entry);
        let ghost seen_before = seen@;
        seen.insert(line.internal_id, i);
        lines.push(line.id.as_str());
        proof {
            let after = entry_views(entries@);
            let p = choose|p: int| 0 <= p <= i && after == before.insert(p, m.record(i as int));
            lemma_insert_holds(before, p, m.record(i as int));
            assert forall|t: int| 0 <= t < i + 1 implies after.contains(#[trigger] m.record(t)) by {
                if t < i {
                    assert(before.contains(m.record(t)));
                }
            }
            assert forall|k: int| 0 <= k < i + 1 implies exists|t: int|
                0 <= t < i + 1 && (#[trigger] after[k]) == m.record(t) by {
                if after[k] != m.record(i as int) {
                    assert(before.contains(after[k]));
                    let k0 = choose|k0: int| 0 <= k0 < before.len() && before[k0] == after[k];
                    let t = choose|t: int| 0 <= t < i && before[k0] == m.record(t);
                    assert(after[k] == m.record(t));
                }
            }
            assert(m.has_vector(n));
            assert(lines@ =~= line_ids(m.id_map).take(i + 1));
            assert forall|k: usize| #[trigger] seen@.contains_key(k) implies exists|t: int|
                0 <= t < i + 1 && (#[trigger] m.id_map[t]).1 == k by {
                if k == line.internal_id {
                    assert(m.id_map[i as int].1 == k);
                } else {
                    assert(seen_before.contains_key(k));
                    let t = choose|t: int| 0 <= t < i && (#[trigger] m.id_map[t]).1 == k;
                    assert(m.id_map[t].1 == k);
                }
            }
        }
        i += 1;
    }
    assert(line_ids(m.id_map).take(m.id_map.len() as int) =~= line_ids(m.id_map));
    let mut d: usize = 0;
    while d < metadata.deleted_ids.len()
        invariant
            m == metadata@,
            lines.wf(),
            lines@ == line_ids(m.id_map),
            d <= metadata.deleted_ids.len(),
            forall|t: int| 0 <= t < d ==> m.maps(#[trigger] m.deleted_ids[t]),
        decreases metadata.deleted_ids.len() - d,
    {
        match lines.position(metadata.deleted_ids[d].as_str()) {
            Some(t) => {
                assert(line_ids(m.id_map)[t as int] == m.id_map[t as int].0);
                assert(m.maps(m.deleted_ids[d as int]));
            },
            None => {
                assert(!m.maps(m.deleted_ids[d as int])) by {
                    if m.maps(m.deleted_ids[d as int]) {
                        let t = choose|t: int|
                            0 <= t < m.id_map.len() && (#[trigger] m.id_map[t]).0
                                == m.deleted_ids[d as int];
                        assert(line_ids(m.id_map)[t] == m.deleted_ids[d as int]);
                    }
                }
                assert(!m.tombstones_known());
                return Err(Error::CorruptSnapshot);
            },
        }
        d += 1;
    }
    proof {
        let views = entry_views(entries@);
        assert(m.tombstones_known());
        assert(m.ids_distinct());
        assert(m.ids_backed());
        assert forall|a: int, b: int| 0 <= a < b < views.len() implies views[a].id
            != views[b].id by {
            let s = choose|s: int| 0 <= s < i && views[a] == m.record(s);
            let t = choose|t: int| 0 <= t < i && views[b] == m.record(t);
            assert(views[a].internal_id < views[b].internal_id);
            assert(s != t);
            if s < t {
                assert(m.id_map[s].0 != m.id_map[t].0);
            } else {
                assert(m.id_map[t].0 != m.id_map[s].0);
            }
        }
        assert forall|k: int| 0 <= k < views.len() implies m.is_record(#[trigger] views[k]) by {
            let t = choose|t: int| 0 <= t < i && views[k] == m.record(t);
            assert(m.record(t) == views[k]);
        }
        assert forall|k: int| 0 <= k < views.len() implies (#[trigger] views[k]).internal_id
            < m.next_id && views[k].vector.len() == m.dimensions by {
            let t = choose|t: int| 0 <= t < i && views[k] == m.record(t);
            let slot = m.vector_slot(m.id_map[t].1);
            assert(m.has_vector(m.id_map[t].1));
            assert(m.key_is(slot, m.id_map[t].1));
            assert(m.bytes_of(slot)->0.len() == 4 * m.dimensions);
        }
    }
    Ok(Collection::restore(path, metadata.dimensions, metadata.next_id, entries))
}

/// Two runs in ascending order of internal identifier with the same members
/// are the same run.
pub proof fn lemma_ascending_unique(a: Seq<EntryView>, b: Seq<EntryView>)
    requires
        ascending(a),
        ascending(b),
        forall|e: EntryView| a.contains(e) <==> b.contains(e),
    ensures
        a == b,
    decreases a.len(),
{
    if a.len() == 0 {
        if b.len() > 0 {
            assert(b.contains(b[0]));
        }
        assert(a =~= b);
    } else if b.len() == 0 {
        assert(a.contains(a[0]));
    } else {
        assert(a.contains(a.last()));
        assert(b.contains(b.last()));
        let i = choose|i: int| 0 <= i < a.len() && a[i] == b.last();
        let j = choose|j: int| 0 <= j < b.len() && b[j] == a.last();
        if i < a.len() - 1 {
            assert(a[i].internal_id < a.last().internal_id);
        }
        if j < b.len() - 1 {
            assert(b[j].internal_id < b.last().internal_id);
        }
        assert(a.last() == b.last());
        let a0 = a.drop_last();
        let b0 = b.drop_last();
        assert forall|e: EntryView| a0.contains(e) <==> b0.contains(e) by {
            if a0.contains(e) {
                let k = choose|k: int| 0 <= k < a0.len() && a0[k] == e;
                assert(a[k] == e);
                assert(a[k].internal_id < a.last().internal_id);
                assert(a.contains(e));
                let t = choose|t: int| 0 <= t < b.len() && b[t] == e;
                assert(b0[t] == e);
            }
            if b0.contains(e) {
                let k = choose|k: int| 0 <= k < b0.len() && b0[k] == e;
                assert(b[k] == e);
                assert(b[k].internal_id < b.last().internal_id);
                assert(b.contains(e));
                let t = choose|t: int| 0 <= t < a.len() && a[t] == e;
                assert(a0[t] == e);
            }
        }
        lemma_ascending_unique(a0, b0);
        assert(a =~= a0.push(a.last()));
        assert(b =~= b0.push(b.last()));
    }
}

/// Stored values describe one collection at most: two collections that they
/// describe have the same entries, vector length and allocator state, and
/// so the same number of live entries, the same contents of the index and
/// the same results for the candidates of a search.
pub proof fn lemma_reload(m: MetadataView, a: CollectionView, b: CollectionView)
    requires
        a.wf(),
        b.wf(),
        m.describes(a),
        m.describes(b),
    ensures
        a.entries == b.entries,
        a.dimensions == b.dimensions,
        a.next_id == b.next_id,
        a.active_count() == b.active_count(),
        a.index_contents() == b.index_contents(),
        forall|neighbours: Seq<Neighbour>, k: nat| #[trigger]
            a.search_results(neighbours, k) == b.search_results(neighbours, k),
{
    assert forall|e: EntryView| a.entries.contains(e) <==> b.entries.contains(e) by {
        if a.entries.contains(e) {
            let k = choose|k: int| 0 <= k < a.entries.len() && a.entries[k] == e;
            assert(m.is_record(a.entries[k]));
        }
        if b.entries.contains(e) {
            let k = choose|k: int| 0 <= k < b.entries.len() && b.entries[k] == e;
            assert(m.is_record(b.entries[k]));
        }
    }
    lemma_ascending_unique(a.entries, b.entries);
    assert forall|neighbours: Seq<Neighbour>, k: nat| #[trigger]
        a.search_results(neighbours, k) == b.search_results(neighbours, k) by {
        lemma_same_entries_same_results(a, b, arranged(neighbours));
    }
}

/// What a search returns depends on the entries alone.
pub proof fn lemma_same_entries_same_results(
    a: CollectionView,
    b: CollectionView,
    neighbours: Seq<Neighbour>,
)
    requires
        a.entries == b.entries,
    ensures
        a.hits(neighbours) == b.hits(neighbours),
    decreases neighbours.len(),
{
    if neighbours.len() > 0 {
        lemma_same_entries_same_results(a, b, neighbours.drop_last());
        assert(a.hit_of(neighbours.last()) == b.hit_of(neighbours.last()));
    }
}

/// What a checkpoint stores and a later opening reads back is the
/// collection as it stood at the checkpoint: the same number of live
/// entries, the same allocator state, the same contents of the index.
pub proof fn lemma_checkpoint_reopen(c: CollectionView, m: MetadataView, reopened: CollectionView)
    requires
        c.wf(),
        m.describes(c.compacted()),
        reopened.wf(),
        m.describes(reopened),
    ensures
        reopened.entries == c.compacted().entries,
        reopened.active_count() == c.active_count(),
        reopened.next_id == c.next_id,
        reopened.dimensions == c.dimensions,
        reopened.index_contents() == c.index_contents(),
{
    lemma_compacted_wf(c);
    lemma_reload(m, c.compacted(), reopened);
    lemma_compacted_states(c);
    lemma_filter_split(c.entries);
    lemma_filter_members(c.entries, is_live_entry());
    assert forall|i: int| 0 <= i < c.compacted().entries.len() implies is_live_entry()(
        #[trigger] c.compacted().entries[i],
    ) by {
        assert(c.compacted().entries.contains(c.compacted().entries[i]));
    }
    lemma_filter_keeps_all(c.compacted().entries, is_live_entry());
}

} // verus!
