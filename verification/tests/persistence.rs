use vector_collection::collection::Collection;
use vector_collection::error::Error;
use vector_collection::persistence::{
    load_collection, save_collection, IdMapping, Metadata, StoredVector, METADATA_FILE,
};

fn bits(values: &[f32]) -> Vec<u32> {
    values.iter().map(|v| v.to_bits()).collect()
}

fn line(id: &str, internal_id: usize) -> IdMapping {
    IdMapping { id: id.to_string(), internal_id }
}

fn stored(key: &str, payload: &str) -> StoredVector {
    StoredVector { key: key.to_string(), payload: payload.to_string() }
}

fn two_vectors() -> Metadata {
    Metadata {
        dimensions: 3,
        next_id: 2,
        id_map: vec![line("a", 0), line("b", 1)],
        deleted_ids: vec![],
        vectors: vec![stored("0", "AACAPwAAAAAAAAAA"), stored("1", "AAAAAAAAgD8AAAAA")],
    }
}

fn load(metadata: &Metadata) -> Result<Collection, Error> {
    load_collection("/data/loaded".to_string(), metadata)
}

fn corrupt(metadata: &Metadata) -> bool {
    matches!(load(metadata), Err(Error::CorruptSnapshot))
}

#[test]
fn save_writes_keys_in_decimal_and_vectors_in_base64() {
    let mut c = Collection::new("/data/save".to_string(), 3);
    c.insert_vector("a", bits(&[1.0, 0.0, 0.0])).unwrap();
    c.insert_vector("b", bits(&[0.0, 1.0, 0.0])).unwrap();
    c.insert_vector("c", bits(&[0.0, 0.0, 1.0])).unwrap();
    c.delete_vector("b");
    let m = save_collection(&c);
    assert_eq!(m.dimensions, 3);
    assert_eq!(m.next_id, 3);
    assert_eq!(m.id_map.len(), 3);
    assert_eq!((m.id_map[0].id.as_str(), m.id_map[0].internal_id), ("a", 0));
    assert_eq!((m.id_map[1].id.as_str(), m.id_map[1].internal_id), ("b", 1));
    assert_eq!((m.id_map[2].id.as_str(), m.id_map[2].internal_id), ("c", 2));
    assert_eq!(m.deleted_ids, vec!["b".to_string()]);
    assert_eq!(m.vectors.len(), 3);
    assert_eq!((m.vectors[0].key.as_str(), m.vectors[0].payload.as_str()), ("0", "AACAPwAAAAAAAAAA"));
    assert_eq!((m.vectors[1].key.as_str(), m.vectors[1].payload.as_str()), ("1", "AAAAAAAAgD8AAAAA"));
    assert_eq!((m.vectors[2].key.as_str(), m.vectors[2].payload.as_str()), ("2", "AAAAAAAAAAAAAIA/"));
}

#[test]
fn save_pads_the_text_of_a_short_vector() {
    let mut c = Collection::new("/data/pad".to_string(), 1);
    c.insert_vector("one", bits(&[1.0])).unwrap();
    let m = save_collection(&c);
    assert_eq!(m.vectors[0].payload, "AACAPw==");
    let mut c = Collection::new("/data/pad".to_string(), 2);
    c.insert_vector("two", bits(&[0.5, -2.0])).unwrap();
    let m = save_collection(&c);
    assert_eq!(m.vectors[0].payload, "AAAAPwAAAMA=");
}

#[test]
fn save_of_an_empty_collection_has_no_lines() {
    let c = Collection::new("/data/empty".to_string(), 8);
    let m = save_collection(&c);
    assert_eq!(m.dimensions, 8);
    assert_eq!(m.next_id, 0);
    assert!(m.id_map.is_empty());
    assert!(m.deleted_ids.is_empty());
    assert!(m.vectors.is_empty());
    let back = load(&m).unwrap();
    assert_eq!(back.dimensions(), 8);
    assert_eq!(back.active_count(), 0);
}

#[test]
fn load_reads_the_stored_vectors() {
    let c = load(&two_vectors()).unwrap();
    assert_eq!(c.path(), "/data/loaded");
    assert_eq!(c.dimensions(), 3);
    assert_eq!(c.next_id(), 2);
    assert!(!c.is_dirty());
    assert_eq!(c.active_count(), 2);
    let entries = c.entries();
    assert_eq!(entries[0].id, "a");
    assert_eq!(entries[0].internal_id, 0);
    assert_eq!(entries[0].vector, bits(&[1.0, 0.0, 0.0]));
    assert_eq!(entries[1].id, "b");
    assert_eq!(entries[1].vector, bits(&[0.0, 1.0, 0.0]));
}

#[test]
fn load_puts_the_entries_in_ascending_order() {
    let m = Metadata {
        dimensions: 1,
        next_id: 40,
        id_map: vec![line("x", 30), line("y", 4), line("z", 17), line("w", 0)],
        deleted_ids: vec!["z".to_string(), "z".to_string()],
        vectors: vec![
            stored("17", "AACAPw=="),
            stored("+30", "AAAAPw=="),
            stored("0", "AAAAAA=="),
            stored("004", "AAAAwA=="),
        ],
    };
    let c = load(&m).unwrap();
    let entries = c.entries();
    let got: Vec<(&str, usize, u32, bool)> =
        entries.iter().map(|e| (e.id.as_str(), e.internal_id, e.vector[0], e.deleted)).collect();
    assert_eq!(
        got,
        vec![
            ("w", 0, 0.0f32.to_bits(), false),
            ("y", 4, (-2.0f32).to_bits(), false),
            ("z", 17, 1.0f32.to_bits(), true),
            ("x", 30, 0.5f32.to_bits(), false),
        ]
    );
    assert_eq!(c.active_count(), 3);
    assert_eq!(c.tombstone_count(), 1);
    assert_eq!(c.next_id(), 40);
}

#[test]
fn load_gives_back_what_save_wrote() {
    let mut c = Collection::new("/data/loaded".to_string(), 2);
    c.insert_vector("a", bits(&[1.0, 2.0])).unwrap();
    c.insert_vector("b", bits(&[-3.5, 0.0])).unwrap();
    c.insert_vector("a", bits(&[7.0, 8.0])).unwrap();
    c.insert_vector("c", bits(&[1.0e-30, 1.0e30])).unwrap();
    c.delete_vector("b");
    let m = save_collection(&c);
    let back = load(&m).unwrap();
    assert_eq!(back.next_id(), c.next_id());
    assert_eq!(back.dimensions(), c.dimensions());
    assert_eq!(back.active_count(), c.active_count());
    assert_eq!(back.tombstone_count(), c.tombstone_count());
    assert_eq!(back.entries().len(), c.entries().len());
    for (x, y) in back.entries().iter().zip(c.entries().iter()) {
        assert_eq!(x.id, y.id);
        assert_eq!(x.internal_id, y.internal_id);
        assert_eq!(x.vector, y.vector);
        assert_eq!(x.deleted, y.deleted);
    }
    let again = save_collection(&back);
    assert_eq!(again.vectors.len(), m.vectors.len());
    for (x, y) in again.vectors.iter().zip(m.vectors.iter()) {
        assert_eq!(x.key, y.key);
        assert_eq!(x.payload, y.payload);
    }
}

#[test]
fn next_id_survives_a_checkpoint_and_reload() {
    let mut c = Collection::new("/data/loaded".to_string(), 1);
    for i in 0..5u32 {
        c.insert_vector(&format!("v{}", i), vec![i]).unwrap();
    }
    c.delete_vector("v4");
    c.delete_vector("v0");
    c.compact();
    let before = c.next_id();
    let mut back = load(&save_collection(&c)).unwrap();
    assert_eq!(back.next_id(), before);
    assert_eq!(back.next_id(), 5);
    assert_eq!(back.insert_vector("new", vec![9]), Ok(5));
}

#[test]
fn load_refuses_a_key_that_is_not_a_number() {
    let mut m = two_vectors();
    m.vectors[1].key = "one".to_string();
    assert!(corrupt(&m));
    m.vectors[1].key = "".to_string();
    assert!(corrupt(&m));
    m.vectors[1].key = "-1".to_string();
    assert!(corrupt(&m));
    m.vectors[1].key = "1.0".to_string();
    assert!(corrupt(&m));
    m.vectors[1].key = "99999999999999999999999999".to_string();
    assert!(corrupt(&m));
}

#[test]
fn load_refuses_text_that_is_not_base64() {
    let mut m = two_vectors();
    m.vectors[0].payload = "AACAPwAAAAAAAAA*".to_string();
    assert!(corrupt(&m));
    m.vectors[0].payload = "AACAPwAAAAAAAAA".to_string();
    assert!(corrupt(&m));
    m.vectors[0].payload = "AACAPwAAAAAAAAAA====".to_string();
    assert!(corrupt(&m));
}

#[test]
fn load_refuses_a_vector_of_another_length() {
    let mut m = two_vectors();
    m.vectors[0].payload = "AACAPw==".to_string();
    assert!(corrupt(&m));
    m.vectors[0].payload = "AACAPwAAAAAAAAAAAAAAAA==".to_string();
    assert!(corrupt(&m));
    m.vectors[0].payload = "AACAPwAAAAAAAAA=".to_string();
    assert!(corrupt(&m));
    m.vectors[0].payload = "".to_string();
    assert!(corrupt(&m));
    let mut m = two_vectors();
    m.dimensions = 4;
    assert!(corrupt(&m));
}

#[test]
fn load_refuses_values_that_describe_no_collection() {
    let mut m = two_vectors();
    m.vectors[1].key = "00".to_string();
    assert!(corrupt(&m));
    let mut m = two_vectors();
    m.id_map[1].id = "a".to_string();
    assert!(corrupt(&m));
    let mut m = two_vectors();
    m.id_map[1].internal_id = 0;
    assert!(corrupt(&m));
    let mut m = two_vectors();
    m.id_map.pop();
    assert!(corrupt(&m));
    let mut m = two_vectors();
    m.vectors.pop();
    assert!(corrupt(&m));
    let mut m = two_vectors();
    m.vectors[1].key = "5".to_string();
    assert!(corrupt(&m));
    let mut m = two_vectors();
    m.next_id = 1;
    assert!(corrupt(&m));
    let mut m = two_vectors();
    m.deleted_ids.push("c".to_string());
    assert!(corrupt(&m));
    let mut m = two_vectors();
    m.next_id = 2;
    m.deleted_ids.push("b".to_string());
    assert!(!corrupt(&m));
}

#[test]
fn load_reads_a_large_snapshot_in_any_order() {
    let mut c = Collection::new("/data/loaded".to_string(), 2);
    for i in 0..2000u32 {
        c.insert_vector(&format!("key-{}", i), vec![i, i + 1]).unwrap();
    }
    for i in (0..2000u32).step_by(7) {
        c.delete_vector(&format!("key-{}", i));
    }
    let mut m = save_collection(&c);
    m.id_map.reverse();
    m.vectors.swap(0, 1999);
    m.vectors.swap(5, 1000);
    m.deleted_ids.reverse();
    let back = load(&m).unwrap();
    assert_eq!(back.entries().len(), 2000);
    assert_eq!(back.active_count(), c.active_count());
    for (x, y) in back.entries().iter().zip(c.entries().iter()) {
        assert_eq!(x.id, y.id);
        assert_eq!(x.internal_id, y.internal_id);
        assert_eq!(x.vector, y.vector);
        assert_eq!(x.deleted, y.deleted);
    }
    let mut back = back;
    assert!(back.delete_vector("key-1"));
    assert!(!back.delete_vector("key-7"));
    assert_eq!(back.insert_vector("key-7", vec![1, 2]), Ok(2000));
}

#[test]
fn stored_values_go_to_one_file() {
    assert_eq!(METADATA_FILE, "metadata.json");
}
