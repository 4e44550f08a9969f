use vector_collection::collection::Collection;
use vector_collection::error::{ConfigFault, Error};
use vector_collection::model::Neighbour;
use vector_collection::persistence::{save_collection, Metadata};
use vector_collection::{
    build_index, checkpoint_saved, create_collection, delete_vector, insert_vector, search,
    search_results, stats, validate_config, CollectionConfig, Opened, Registry, EF_SEARCH_DEFAULT,
};

fn bits(values: &[f32]) -> Vec<u32> {
    values.iter().map(|v| v.to_bits()).collect()
}

fn config(path: &str, dimensions: u32) -> CollectionConfig {
    CollectionConfig {
        path: path.to_string(),
        dimensions,
        index_type: "hnsw".to_string(),
        metric: "cosine".to_string(),
    }
}

fn open(path: &str, dimensions: u32) -> Registry {
    let mut registry = Registry::new();
    assert_eq!(create_collection(&mut registry, &config(path, dimensions), None), Ok(Opened::Created));
    registry
}

fn stored_two() -> Metadata {
    let mut c = Collection::new("/db/two".to_string(), 3);
    c.insert_vector("a", bits(&[1.0, 0.0, 0.0])).unwrap();
    c.insert_vector("b", bits(&[0.0, 1.0, 0.0])).unwrap();
    save_collection(&c)
}

#[test]
fn config_is_checked_metric_first() {
    assert_eq!(validate_config(&config("/db/x", 3)), Ok(()));
    let mut c = config("/db/x", 0);
    assert_eq!(validate_config(&c), Err(Error::UnsupportedConfiguration(ConfigFault::Dimensions)));
    c.index_type = "flat".to_string();
    assert_eq!(validate_config(&c), Err(Error::UnsupportedConfiguration(ConfigFault::IndexType)));
    c.metric = "euclidean".to_string();
    assert_eq!(validate_config(&c), Err(Error::UnsupportedConfiguration(ConfigFault::Metric)));
    let mut c = config("/db/x", 3);
    c.metric = "Cosine".to_string();
    assert_eq!(validate_config(&c), Err(Error::UnsupportedConfiguration(ConfigFault::Metric)));
    let mut c = config("/db/x", 3);
    c.index_type = "hnsw ".to_string();
    assert_eq!(validate_config(&c), Err(Error::UnsupportedConfiguration(ConfigFault::IndexType)));
}

#[test]
fn opening_with_zero_dimensions_fails() {
    let mut registry = Registry::new();
    let r = create_collection(&mut registry, &config("/db/zero", 0), None);
    assert_eq!(r, Err(Error::UnsupportedConfiguration(ConfigFault::Dimensions)));
    assert!(!registry.contains("/db/zero"));
}

#[test]
fn opening_with_another_metric_registers_nothing() {
    let mut registry = Registry::new();
    let mut c = config("/db/euclid", 3);
    c.metric = "euclidean".to_string();
    let r = create_collection(&mut registry, &c, None);
    assert_eq!(r, Err(Error::UnsupportedConfiguration(ConfigFault::Metric)));
    assert!(!registry.contains("/db/euclid"));
    assert!(registry.get("/db/euclid").is_none());
    assert_eq!(stats(&registry, "/db/euclid", 0), Err(Error::NotFound));
}

#[test]
fn opening_with_another_index_type_fails() {
    let mut registry = Registry::new();
    let mut c = config("/db/flat", 3);
    c.index_type = "flat".to_string();
    let r = create_collection(&mut registry, &c, None);
    assert_eq!(r, Err(Error::UnsupportedConfiguration(ConfigFault::IndexType)));
    assert!(!registry.contains("/db/flat"));
}

#[test]
fn opening_a_path_twice_changes_nothing() {
    let mut registry = open("/db/twice", 3);
    insert_vector(&mut registry, "/db/twice", "a", bits(&[1.0, 0.0, 0.0])).unwrap();
    let r = create_collection(&mut registry, &config("/db/twice", 3), None);
    assert_eq!(r, Ok(Opened::AlreadyOpen));
    let r = create_collection(&mut registry, &config("/db/twice", 5), Some(&stored_two()));
    assert_eq!(r, Ok(Opened::AlreadyOpen));
    let c = registry.get("/db/twice").unwrap();
    assert_eq!(c.dimensions(), 3);
    assert_eq!(c.active_count(), 1);
    assert_eq!(c.next_id(), 1);
}

#[test]
fn opening_restores_what_is_stored() {
    let mut registry = Registry::new();
    let r = create_collection(&mut registry, &config("/db/two", 3), Some(&stored_two()));
    assert_eq!(r, Ok(Opened::Restored));
    let c = registry.get("/db/two").unwrap();
    assert_eq!(c.path(), "/db/two");
    assert_eq!(c.active_count(), 2);
    assert_eq!(c.next_id(), 2);
    assert!(!c.is_dirty());
    assert_eq!(c.entries()[1].vector, bits(&[0.0, 1.0, 0.0]));
}

#[test]
fn opening_with_other_dimensions_than_stored_fails() {
    let mut registry = Registry::new();
    let r = create_collection(&mut registry, &config("/db/two", 4), Some(&stored_two()));
    assert_eq!(r, Err(Error::DimensionMismatch { expected: 3, got: 4 }));
    assert!(!registry.contains("/db/two"));
}

#[test]
fn opening_a_corrupt_snapshot_fails() {
    let mut registry = Registry::new();
    let mut m = stored_two();
    m.vectors[0].key = "zero".to_string();
    let r = create_collection(&mut registry, &config("/db/two", 3), Some(&m));
    assert_eq!(r, Err(Error::CorruptSnapshot));
    assert!(!registry.contains("/db/two"));
    let r = create_collection(&mut registry, &config("/db/two", 4), Some(&m));
    assert_eq!(r, Err(Error::CorruptSnapshot));
}

#[test]
fn operations_on_an_unknown_path_are_not_found() {
    let mut registry = open("/db/known", 3);
    assert_eq!(
        insert_vector(&mut registry, "/db/other", "a", bits(&[1.0, 0.0, 0.0])),
        Err(Error::NotFound)
    );
    assert_eq!(delete_vector(&mut registry, "/db/other", "a"), Err(Error::NotFound));
    assert!(matches!(build_index(&mut registry, "/db/other"), Err(Error::NotFound)));
    assert_eq!(checkpoint_saved(&mut registry, "/db/other"), Err(Error::NotFound));
    assert_eq!(search(&registry, "/db/other", &bits(&[1.0, 0.0, 0.0]), 1), Err(Error::NotFound));
    assert!(matches!(search_results(&registry, "/db/other", &Vec::new(), 1), Err(Error::NotFound)));
    assert_eq!(stats(&registry, "/db/other", 0), Err(Error::NotFound));
    assert_eq!(stats(&registry, "/db/Known", 0), Err(Error::NotFound));
}

#[test]
fn insert_checks_the_length_of_the_vector() {
    let mut registry = open("/db/len", 3);
    assert_eq!(insert_vector(&mut registry, "/db/len", "a", bits(&[1.0, 0.0, 0.0])), Ok(0));
    assert_eq!(
        insert_vector(&mut registry, "/db/len", "b", bits(&[1.0, 0.0])),
        Err(Error::DimensionMismatch { expected: 3, got: 2 })
    );
    assert_eq!(
        insert_vector(&mut registry, "/db/len", "b", bits(&[1.0, 0.0, f32::NAN])),
        Err(Error::NonFiniteComponent)
    );
    assert_eq!(insert_vector(&mut registry, "/db/len", "b", bits(&[0.0, 1.0, 0.0])), Ok(1));
    assert_eq!(stats(&registry, "/db/len", 0).unwrap().count, 2);
}

#[test]
fn collections_are_kept_apart_by_path() {
    let mut registry = open("/db/one", 2);
    assert_eq!(create_collection(&mut registry, &config("/db/two", 3), None), Ok(Opened::Created));
    insert_vector(&mut registry, "/db/one", "a", bits(&[1.0, 0.0])).unwrap();
    insert_vector(&mut registry, "/db/two", "a", bits(&[1.0, 0.0, 0.0])).unwrap();
    insert_vector(&mut registry, "/db/two", "b", bits(&[0.0, 1.0, 0.0])).unwrap();
    assert_eq!(delete_vector(&mut registry, "/db/one", "b"), Ok(false));
    assert_eq!(delete_vector(&mut registry, "/db/two", "b"), Ok(true));
    let one = stats(&registry, "/db/one", 10).unwrap();
    let two = stats(&registry, "/db/two", 20).unwrap();
    assert_eq!((one.count, one.dimensions, one.file_size_bytes), (1, 2, 10));
    assert_eq!((two.count, two.dimensions, two.file_size_bytes), (1, 3, 20));
}

#[test]
fn searching_an_empty_collection_asks_nothing_of_the_index() {
    let mut registry = open("/db/empty", 3);
    assert_eq!(search(&registry, "/db/empty", &bits(&[1.0, 0.0, 0.0]), 5), Ok(None));
    insert_vector(&mut registry, "/db/empty", "a", bits(&[1.0, 0.0, 0.0])).unwrap();
    delete_vector(&mut registry, "/db/empty", "a").unwrap();
    assert_eq!(search(&registry, "/db/empty", &bits(&[1.0, 0.0, 0.0]), 5), Ok(None));
    let hits = search_results(&registry, "/db/empty", &Vec::new(), 5).unwrap();
    assert!(hits.is_empty());
}

#[test]
fn search_checks_the_length_of_the_query() {
    let mut registry = open("/db/query", 3);
    insert_vector(&mut registry, "/db/query", "a", bits(&[1.0, 0.0, 0.0])).unwrap();
    assert_eq!(
        search(&registry, "/db/query", &bits(&[1.0, 0.0]), 1),
        Err(Error::DimensionMismatch { expected: 3, got: 2 })
    );
    assert_eq!(
        search(&registry, "/db/query", &Vec::new(), 1),
        Err(Error::DimensionMismatch { expected: 3, got: 0 })
    );
}

#[test]
fn search_asks_for_k_and_the_tombstones_with_the_default_beam() {
    let mut registry = open("/db/ask", 1);
    for i in 0..4u32 {
        insert_vector(&mut registry, "/db/ask", &format!("v{}", i), vec![i]).unwrap();
    }
    assert_eq!(EF_SEARCH_DEFAULT, 50);
    let r = search(&registry, "/db/ask", &vec![0], 2).unwrap().unwrap();
    assert_eq!((r.count, r.ef), (2, 50));
    delete_vector(&mut registry, "/db/ask", "v1").unwrap();
    delete_vector(&mut registry, "/db/ask", "v3").unwrap();
    let r = search(&registry, "/db/ask", &vec![0], 2).unwrap().unwrap();
    assert_eq!((r.count, r.ef), (4, 50));
    let r = search(&registry, "/db/ask", &vec![0], 51).unwrap().unwrap();
    assert_eq!((r.count, r.ef), (53, 51));
    let r = search(&registry, "/db/ask", &vec![0], 50).unwrap().unwrap();
    assert_eq!((r.count, r.ef), (52, 50));
}

#[test]
fn search_results_name_the_live_candidates() {
    let mut registry = open("/db/hits", 1);
    for i in 0..4u32 {
        insert_vector(&mut registry, "/db/hits", &format!("v{}", i), vec![i]).unwrap();
    }
    delete_vector(&mut registry, "/db/hits", "v2").unwrap();
    let neighbours = vec![
        Neighbour { internal_id: 2, distance: 10 },
        Neighbour { internal_id: 3, distance: 11 },
        Neighbour { internal_id: 0, distance: 12 },
        Neighbour { internal_id: 1, distance: 13 },
    ];
    let hits = search_results(&registry, "/db/hits", &neighbours, 2).unwrap();
    let got: Vec<(&str, u32)> = hits.iter().map(|h| (h.id.as_str(), h.distance)).collect();
    assert_eq!(got, vec![("v3", 11), ("v0", 12)]);
}

#[test]
fn checkpoint_drops_tombstones_and_says_what_to_store() {
    let mut registry = open("/db/cp", 3);
    insert_vector(&mut registry, "/db/cp", "a", bits(&[1.0, 0.0, 0.0])).unwrap();
    insert_vector(&mut registry, "/db/cp", "b", bits(&[0.0, 1.0, 0.0])).unwrap();
    delete_vector(&mut registry, "/db/cp", "a").unwrap();
    let cp = build_index(&mut registry, "/db/cp").unwrap();
    let items = cp.rebuild.unwrap();
    assert_eq!(items.len(), 1);
    assert_eq!(items[0].internal_id, 1);
    assert_eq!(items[0].vector, bits(&[0.0, 1.0, 0.0]));
    assert_eq!(cp.metadata.next_id, 2);
    assert_eq!(cp.metadata.id_map.len(), 1);
    assert_eq!(cp.metadata.id_map[0].id, "b");
    assert!(cp.metadata.deleted_ids.is_empty());
    assert_eq!(cp.metadata.vectors.len(), 1);
    assert_eq!(cp.metadata.vectors[0].key, "1");
    assert_eq!(cp.metadata.vectors[0].payload, "AAAAAAAAgD8AAAAA");
    let c = registry.get("/db/cp").unwrap();
    assert!(c.is_dirty());
    assert_eq!(c.entries().len(), 1);
    assert_eq!(checkpoint_saved(&mut registry, "/db/cp"), Ok(()));
    assert!(!registry.get("/db/cp").unwrap().is_dirty());
}

#[test]
fn checkpoint_without_tombstones_keeps_the_index() {
    let mut registry = open("/db/keep", 3);
    insert_vector(&mut registry, "/db/keep", "a", bits(&[1.0, 0.0, 0.0])).unwrap();
    let cp = build_index(&mut registry, "/db/keep").unwrap();
    assert!(cp.rebuild.is_none());
    assert_eq!(cp.metadata.id_map.len(), 1);
    let cp = build_index(&mut registry, "/db/keep").unwrap();
    assert!(cp.rebuild.is_none());
}

#[test]
fn stats_are_cut_to_32_bits() {
    let mut registry = open("/db/stats", 3);
    insert_vector(&mut registry, "/db/stats", "a", bits(&[1.0, 0.0, 0.0])).unwrap();
    let s = stats(&registry, "/db/stats", 0x1_0000_0007).unwrap();
    assert_eq!((s.count, s.dimensions, s.file_size_bytes), (1, 3, 7));
    let s = stats(&registry, "/db/stats", 0xffff_ffff).unwrap();
    assert_eq!(s.file_size_bytes, 0xffff_ffff);
    let s = stats(&registry, "/db/stats", 0).unwrap();
    assert_eq!(s.file_size_bytes, 0);
}

#[test]
fn count_after_checkpoint_and_reopen_is_the_count_before() {
    let mut registry = open("/db/round", 3);
    insert_vector(&mut registry, "/db/round", "a", bits(&[1.0, 0.0, 0.0])).unwrap();
    insert_vector(&mut registry, "/db/round", "b", bits(&[0.0, 1.0, 0.0])).unwrap();
    insert_vector(&mut registry, "/db/round", "c", bits(&[0.0, 0.0, 1.0])).unwrap();
    delete_vector(&mut registry, "/db/round", "b").unwrap();
    let before = stats(&registry, "/db/round", 0).unwrap();
    let next_id = registry.get("/db/round").unwrap().next_id();
    let cp = build_index(&mut registry, "/db/round").unwrap();
    checkpoint_saved(&mut registry, "/db/round").unwrap();
    let mut fresh = Registry::new();
    let r = create_collection(&mut fresh, &config("/db/round", 3), Some(&cp.metadata));
    assert_eq!(r, Ok(Opened::Restored));
    let after = stats(&fresh, "/db/round", 0).unwrap();
    assert_eq!(after, before);
    assert_eq!(after.count, 2);
    assert_eq!(fresh.get("/db/round").unwrap().next_id(), next_id);
    let items = fresh.get("/db/round").unwrap().rebuild_from_vectors();
    assert_eq!(items.len(), 2);
    assert_eq!(items[0].internal_id, 0);
    assert_eq!(items[1].internal_id, 2);
}
