use vector_collection::collection::Collection;
use vector_collection::lookup::{hash_text, TextIndex, TextTable};

#[test]
fn hash_has_the_known_values() {
    assert_eq!(hash_text(""), 0xcbf2_9ce4_8422_2325);
    assert_eq!(hash_text("a"), 0xaf63_dc4c_8601_ec8c);
    assert_eq!(hash_text("foobar"), 0x8594_4171_f739_67e8);
    assert_ne!(hash_text("ab"), hash_text("ba"));
    assert_eq!(hash_text("gr\u{fc}n"), hash_text("gr\u{fc}n"));
}

#[test]
fn index_gives_what_was_filed_in_the_order_of_filing() {
    let mut index = TextIndex::new();
    assert!(index.get("a").is_none());
    index.add("a", 3);
    index.add("b", 4);
    index.add("a", 5);
    assert_eq!(index.get("a"), Some(&vec![3, 5]));
    assert_eq!(index.get("b"), Some(&vec![4]));
    assert!(index.get("c").is_none());
    index.replace("a", 0, 9);
    assert_eq!(index.get("a"), Some(&vec![9, 5]));
    index.replace("a", 1, 7);
    assert_eq!(index.get("a"), Some(&vec![9, 7]));
    assert_eq!(index.get("b"), Some(&vec![4]));
}

#[test]
fn table_finds_the_texts_that_it_holds() {
    let mut table = TextTable::new();
    assert_eq!(table.len(), 0);
    assert_eq!(table.position("x"), None);
    table.push("x");
    table.push("");
    table.push("y");
    table.push("x");
    assert_eq!(table.len(), 4);
    assert_eq!(table.position("x"), Some(0));
    assert_eq!(table.position(""), Some(1));
    assert_eq!(table.position("y"), Some(2));
    assert_eq!(table.position("X"), None);
    assert_eq!(table.position("xy"), None);
}

#[test]
fn many_identifiers_are_found_again() {
    let mut c = Collection::new("/data/lookup".to_string(), 1);
    for i in 0..3000u32 {
        assert_eq!(c.insert_vector(&format!("id-{}", i), vec![i]), Ok(i as usize));
    }
    for i in (0..3000u32).step_by(2) {
        assert!(c.delete_vector(&format!("id-{}", i)));
        assert!(!c.delete_vector(&format!("id-{}", i)));
    }
    assert!(!c.delete_vector("id-3000"));
    assert_eq!(c.active_count(), 1500);
    assert_eq!(c.tombstone_count(), 1500);
    for i in (0..3000u32).step_by(3) {
        assert_eq!(c.insert_vector(&format!("id-{}", i), vec![i + 1]), Ok(3000 + (i / 3) as usize));
    }
    assert_eq!(c.entries().len(), 3000);
    assert_eq!(c.active_count(), 2000);
    assert_eq!(c.tombstone_count(), 1000);
    assert!(c.compact());
    assert_eq!(c.entries().len(), 2000);
    assert_eq!(c.tombstone_count(), 0);
    for i in 0..3000u32 {
        let live = i % 2 == 1 || i % 3 == 0;
        assert_eq!(c.delete_vector(&format!("id-{}", i)), live);
    }
    assert_eq!(c.active_count(), 0);
    assert_eq!(c.tombstone_count(), 2000);
    for i in 0..10u32 {
        assert_eq!(c.insert_vector("id-1", vec![i]), Ok(4000 + i as usize));
    }
    assert_eq!(c.active_count(), 1);
    assert_eq!(c.entries().len(), 2000);
    assert_eq!(c.entries()[1999].id, "id-1");
    assert_eq!(c.entries()[1999].internal_id, 4009);
}
