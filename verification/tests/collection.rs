use vector_collection::collection::{
    Collection, EF_CONSTRUCTION, MAX_ELEMENTS, MAX_LAYER, MAX_NB_CONNECTION,
};
use vector_collection::SearchResult;
use vector_collection::error::Error;
use vector_collection::model::Neighbour;

fn bits(values: &[f32]) -> Vec<u32> {
    values.iter().map(|v| v.to_bits()).collect()
}

fn ids(hits: &[SearchResult]) -> Vec<String> {
    hits.iter().map(|h| h.id.clone()).collect()
}

fn sample() -> Collection {
    let mut c = Collection::new("/data/sample".to_string(), 3);
    assert_eq!(c.insert_vector("a", bits(&[1.0, 0.0, 0.0])), Ok(0));
    assert_eq!(c.insert_vector("b", bits(&[0.0, 1.0, 0.0])), Ok(1));
    assert_eq!(c.insert_vector("c", bits(&[0.0, 0.0, 1.0])), Ok(2));
    c
}

#[test]
fn new_collection_is_empty() {
    let c = Collection::new("/data/none".to_string(), 3);
    assert_eq!(c.active_count(), 0);
    assert_eq!(c.tombstone_count(), 0);
    assert_eq!(c.dimensions(), 3);
    assert_eq!(c.next_id(), 0);
    assert_eq!(c.path(), "/data/none");
    assert!(!c.is_dirty());
    assert!(c.entries().is_empty());
    assert!(c.rebuild_from_vectors().is_empty());
}

#[test]
fn insert_allocates_ascending_internal_ids() {
    let c = sample();
    assert_eq!(c.next_id(), 3);
    assert_eq!(c.active_count(), 3);
    assert!(c.is_dirty());
    let entries = c.entries();
    assert_eq!(entries.len(), 3);
    assert_eq!(entries[0].id, "a");
    assert_eq!(entries[0].internal_id, 0);
    assert_eq!(entries[1].id, "b");
    assert_eq!(entries[2].internal_id, 2);
    assert_eq!(entries[2].vector, bits(&[0.0, 0.0, 1.0]));
    assert!(!entries[2].deleted);
}

#[test]
fn insert_of_wrong_length_is_a_dimension_mismatch() {
    let mut c = sample();
    let r = c.insert_vector("d", bits(&[1.0, 2.0]));
    assert_eq!(r, Err(Error::DimensionMismatch { expected: 3, got: 2 }));
    let r = c.insert_vector("d", bits(&[1.0, 2.0, 3.0, 4.0]));
    assert_eq!(r, Err(Error::DimensionMismatch { expected: 3, got: 4 }));
    assert_eq!(c.next_id(), 3);
    assert_eq!(c.active_count(), 3);
    assert_eq!(c.entries().len(), 3);
}

#[test]
fn insert_of_non_finite_component_is_refused() {
    let mut c = Collection::new("/data/finite".to_string(), 2);
    assert_eq!(c.insert_vector("nan", bits(&[0.0, f32::NAN])), Err(Error::NonFiniteComponent));
    assert_eq!(c.insert_vector("inf", bits(&[f32::INFINITY, 0.0])), Err(Error::NonFiniteComponent));
    assert_eq!(
        c.insert_vector("ninf", bits(&[f32::NEG_INFINITY, 0.0])),
        Err(Error::NonFiniteComponent)
    );
    assert_eq!(c.next_id(), 0);
    assert!(!c.is_dirty());
    assert_eq!(c.insert_vector("max", bits(&[f32::MAX, f32::MIN])), Ok(0));
    assert_eq!(c.insert_vector("tiny", bits(&[f32::MIN_POSITIVE, -0.0])), Ok(1));
}

#[test]
fn length_is_looked_at_before_finiteness() {
    let mut c = Collection::new("/data/order".to_string(), 2);
    assert_eq!(
        c.insert_vector("x", bits(&[f32::NAN])),
        Err(Error::DimensionMismatch { expected: 2, got: 1 })
    );
}

#[test]
fn delete_tombstones_a_live_entry() {
    let mut c = sample();
    assert!(c.delete_vector("b"));
    assert_eq!(c.active_count(), 2);
    assert_eq!(c.tombstone_count(), 1);
    assert_eq!(c.entries().len(), 3);
    assert!(c.entries()[1].deleted);
    assert!(c.is_dirty());
}

#[test]
fn delete_of_unknown_id_returns_false_without_mutation() {
    let mut c = Collection::new("/data/unknown".to_string(), 3);
    assert!(!c.delete_vector("nobody"));
    assert!(!c.is_dirty());
    assert_eq!(c.active_count(), 0);
    assert_eq!(c.next_id(), 0);
    let mut c = sample();
    c.mark_clean();
    assert!(!c.delete_vector("A"));
    assert!(!c.is_dirty());
    assert_eq!(c.active_count(), 3);
    assert_eq!(c.tombstone_count(), 0);
}

#[test]
fn delete_of_tombstoned_id_returns_false() {
    let mut c = sample();
    assert!(c.delete_vector("a"));
    c.mark_clean();
    assert!(!c.delete_vector("a"));
    assert!(!c.is_dirty());
    assert_eq!(c.active_count(), 2);
}

#[test]
fn upsert_leaves_one_live_copy_with_the_second_vector() {
    let mut c = Collection::new("/data/upsert".to_string(), 3);
    assert_eq!(c.insert_vector("a", bits(&[1.0, 0.0, 0.0])), Ok(0));
    assert_eq!(c.insert_vector("a", bits(&[0.0, 0.0, 1.0])), Ok(1));
    assert_eq!(c.active_count(), 1);
    assert_eq!(c.next_id(), 2);
    let entries = c.entries();
    assert_eq!(entries.len(), 1);
    assert_eq!(entries[0].id, "a");
    assert_eq!(entries[0].internal_id, 1);
    assert_eq!(entries[0].vector, bits(&[0.0, 0.0, 1.0]));
    assert!(!entries[0].deleted);
}

#[test]
fn insert_over_a_tombstone_makes_the_id_live_again() {
    let mut c = sample();
    assert!(c.delete_vector("a"));
    assert_eq!(c.insert_vector("a", bits(&[0.5, 0.5, 0.0])), Ok(3));
    assert_eq!(c.active_count(), 3);
    assert_eq!(c.tombstone_count(), 0);
    let entries = c.entries();
    assert_eq!(entries.len(), 3);
    assert_eq!(entries[0].id, "b");
    assert_eq!(entries[2].id, "a");
    assert_eq!(entries[2].internal_id, 3);
}

#[test]
fn active_count_counts_ids_stored_and_not_deleted_afterwards() {
    let mut c = Collection::new("/data/count".to_string(), 1);
    c.insert_vector("a", bits(&[1.0])).unwrap();
    c.insert_vector("b", bits(&[2.0])).unwrap();
    c.insert_vector("a", bits(&[3.0])).unwrap();
    c.delete_vector("b");
    c.insert_vector("c", bits(&[4.0])).unwrap();
    c.delete_vector("c");
    c.insert_vector("c", bits(&[5.0])).unwrap();
    c.delete_vector("d");
    c.insert_vector("e", bits(&[6.0])).unwrap();
    c.delete_vector("e");
    assert!(c.insert_vector("e", bits(&[6.0, 7.0])).is_err());
    assert!(c.insert_vector("f", bits(&[f32::NAN])).is_err());
    assert!(c.insert_vector("a", bits(&[])).is_err());
    assert_eq!(c.active_count(), 2);
    assert!(c.compact());
    assert_eq!(c.active_count(), 2);
    assert_eq!(c.entries().len(), 2);
    assert_eq!(c.entries()[0].id, "a");
    assert_eq!(c.entries()[1].id, "c");
}

#[test]
fn compact_drops_tombstones_and_keeps_the_allocator() {
    let mut c = sample();
    assert!(!c.compact());
    assert_eq!(c.entries().len(), 3);
    c.delete_vector("a");
    c.delete_vector("c");
    assert!(c.compact());
    assert_eq!(c.entries().len(), 1);
    assert_eq!(c.entries()[0].id, "b");
    assert_eq!(c.entries()[0].internal_id, 1);
    assert_eq!(c.next_id(), 3);
    assert_eq!(c.tombstone_count(), 0);
    assert!(!c.delete_vector("a"));
    assert!(!c.compact());
}

#[test]
fn rebuild_lists_live_entries_in_ascending_order() {
    let mut c = sample();
    c.delete_vector("b");
    c.insert_vector("a", bits(&[0.0, 1.0, 1.0])).unwrap();
    let items = c.rebuild_from_vectors();
    assert_eq!(items.len(), 2);
    assert_eq!(items[0].internal_id, 2);
    assert_eq!(items[0].vector, bits(&[0.0, 0.0, 1.0]));
    assert_eq!(items[1].internal_id, 3);
    assert_eq!(items[1].vector, bits(&[0.0, 1.0, 1.0]));
}

#[test]
fn search_request_adds_one_candidate_for_every_tombstone() {
    let mut c = sample();
    let r = c.search_request(2, 50);
    assert_eq!((r.count, r.ef), (2, 50));
    c.delete_vector("a");
    let r = c.search_request(2, 50);
    assert_eq!((r.count, r.ef), (3, 50));
    let r = c.search_request(80, 50);
    assert_eq!((r.count, r.ef), (81, 80));
    let r = c.search_request(50, 50);
    assert_eq!((r.count, r.ef), (51, 50));
    let r = c.search_request(0, 0);
    assert_eq!((r.count, r.ef), (1, 0));
}

#[test]
fn search_keeps_the_first_k_candidates_of_live_entries() {
    let mut c = sample();
    c.delete_vector("b");
    let d = |x: f32| x.to_bits();
    let neighbours = vec![
        Neighbour { internal_id: 1, distance: d(0.1) },
        Neighbour { internal_id: 7, distance: d(0.2) },
        Neighbour { internal_id: 2, distance: d(0.3) },
        Neighbour { internal_id: 0, distance: d(0.4) },
    ];
    let hits = c.search_vectors(&neighbours, 5);
    assert_eq!(ids(&hits), vec!["c".to_string(), "a".to_string()]);
    assert_eq!(hits[0].distance, d(0.3));
    assert_eq!(hits[1].distance, d(0.4));
    let hits = c.search_vectors(&neighbours, 1);
    assert_eq!(ids(&hits), vec!["c".to_string()]);
    let hits = c.search_vectors(&neighbours, 0);
    assert!(hits.is_empty());
    let hits = c.search_vectors(&Vec::new(), 3);
    assert!(hits.is_empty());
}

#[test]
fn search_skips_the_stale_candidate_of_an_upserted_id() {
    let mut c = Collection::new("/data/stale".to_string(), 3);
    c.insert_vector("a", bits(&[1.0, 0.0, 0.0])).unwrap();
    c.insert_vector("a", bits(&[0.0, 0.0, 1.0])).unwrap();
    let neighbours = vec![
        Neighbour { internal_id: 0, distance: 0 },
        Neighbour { internal_id: 1, distance: 1.0f32.to_bits() },
    ];
    let hits = c.search_vectors(&neighbours, 1);
    assert_eq!(hits.len(), 1);
    assert_eq!(hits[0].id, "a");
    assert_eq!(hits[0].distance, 1.0f32.to_bits());
}

#[test]
fn deleted_id_is_not_returned_until_it_is_stored_again() {
    let mut c = sample();
    let neighbours = vec![
        Neighbour { internal_id: 0, distance: 0 },
        Neighbour { internal_id: 1, distance: 0 },
        Neighbour { internal_id: 2, distance: 0 },
        Neighbour { internal_id: 3, distance: 0 },
    ];
    c.delete_vector("a");
    assert_eq!(ids(&c.search_vectors(&neighbours, 4)), vec!["b".to_string(), "c".to_string()]);
    c.insert_vector("b", bits(&[1.0, 1.0, 0.0])).unwrap();
    c.delete_vector("c");
    assert_eq!(ids(&c.search_vectors(&neighbours, 4)), vec!["b".to_string()]);
    let neighbours = vec![
        Neighbour { internal_id: 4, distance: 0 },
        Neighbour { internal_id: 0, distance: 0 },
    ];
    c.insert_vector("a", bits(&[1.0, 0.0, 0.0])).unwrap();
    assert_eq!(ids(&c.search_vectors(&neighbours, 4)), vec!["a".to_string()]);
}

#[test]
fn binary_search_finds_every_internal_id() {
    let mut c = Collection::new("/data/many".to_string(), 1);
    for i in 0..50u32 {
        c.insert_vector(&format!("id{}", i), vec![i]).unwrap();
    }
    for i in (0..50u32).step_by(3) {
        assert!(c.delete_vector(&format!("id{}", i)));
    }
    c.compact();
    for i in 0..50usize {
        let hits = c.search_vectors(&vec![Neighbour { internal_id: i, distance: 9 }], 1);
        if i % 3 == 0 {
            assert!(hits.is_empty());
        } else {
            assert_eq!(hits.len(), 1);
            assert_eq!(hits[0].id, format!("id{}", i));
            assert_eq!(hits[0].distance, 9);
        }
    }
}

#[test]
fn graph_parameters_have_their_defaults() {
    assert_eq!(MAX_NB_CONNECTION, 16);
    assert_eq!(MAX_ELEMENTS, 100_000);
    assert_eq!(MAX_LAYER, 16);
    assert_eq!(EF_CONSTRUCTION, 200);
}
