use jmap::entry::Entry;
use jmap::error::JMapError;
use jmap::field::{FieldType, FieldValue};
use jmap::hash::{calc_hash, smg_hash_table, HashTable};
use jmap::jmap::JMapInfo;

fn sample() -> JMapInfo<jmap::hash::FileHashTable> {
    JMapInfo::new(smg_hash_table())
}

#[test]
fn test_create_field_and_defaults() {
    let mut jm = sample();
    jm.create_field("ScenarioNo", FieldType::Long, FieldValue::Int(3)).unwrap();
    assert_eq!(jm.num_fields(), 1);
    assert!(jm.contains_field("ScenarioNo"));
    assert!(jm.contains_field_hash(0xED08B591));
    let f = jm.get_field("ScenarioNo").unwrap();
    assert_eq!(f.hash, 0xED08B591);
    assert_eq!(f.field_type, FieldType::Long);
    assert_eq!(f.default, FieldValue::Int(3));

    let idx = jm.create_entry();
    assert_eq!(idx, 0);
    assert_eq!(jm.len(), 1);
    let e = jm.get_entry(0).unwrap();
    assert_eq!(e.get_int_by_hash(0xED08B591), Some(3));
}

#[test]
fn test_create_field_type_mismatch() {
    let mut jm = sample();
    let r = jm.create_field("A", FieldType::Long, FieldValue::String(String::from("x")));
    match r {
        Err(JMapError::TypeMismatch { expected, got }) => {
            assert_eq!(expected, "Int");
            assert_eq!(got, "String");
        },
        _ => panic!("expected a type mismatch"),
    }
    assert_eq!(jm.num_fields(), 0);
}

#[test]
fn test_create_field_already_exists() {
    let mut jm = sample();
    jm.create_field("A", FieldType::Long, FieldValue::Int(0)).unwrap();
    let r = jm.create_field("A", FieldType::Short, FieldValue::Int(1));
    assert_eq!(r, Err(JMapError::FieldAlreadyExists(String::from("A"))));
}

#[test]
fn test_create_field_backfills_existing_rows() {
    let mut jm = sample();
    jm.create_field("A", FieldType::Long, FieldValue::Int(1)).unwrap();
    jm.create_entry();
    jm.create_field("B", FieldType::Short, FieldValue::Int(9)).unwrap();
    let e = jm.get_entry(0).unwrap();
    assert_eq!(e.get_int(jm.hash_table(), "B"), Some(9));
}

#[test]
fn test_drop_field() {
    let mut jm = sample();
    jm.create_field("A", FieldType::Long, FieldValue::Int(1)).unwrap();
    jm.create_field("B", FieldType::Long, FieldValue::Int(2)).unwrap();
    jm.create_entry();
    jm.drop_field("A").unwrap();
    assert_eq!(jm.num_fields(), 1);
    assert!(!jm.contains_field("A"));
    let e = jm.get_entry(0).unwrap();
    assert_eq!(e.get_int(jm.hash_table(), "A"), None);
    assert_eq!(e.get_int(jm.hash_table(), "B"), Some(2));
    assert_eq!(
        jm.drop_field("A"),
        Err(JMapError::FieldNotFound(String::from("A")))
    );
}

#[test]
fn test_remove_entry_out_of_bounds() {
    let mut jm = sample();
    jm.create_entry();
    let r = jm.remove_entry(5);
    assert_eq!(r, Err(JMapError::EntryIndexOutOfBounds { index: 5, len: 1 }));
    let r2 = jm.remove_entry(0);
    assert!(r2.is_ok());
    assert_eq!(jm.len(), 0);
    let r3 = jm.remove_entry(0);
    assert_eq!(r3, Err(JMapError::EntryIndexOutOfBounds { index: 0, len: 0 }));
}

#[test]
fn test_set_entry_and_clear() {
    let mut jm = sample();
    jm.create_field("A", FieldType::Long, FieldValue::Int(0)).unwrap();
    jm.create_entry();
    let mut e = jm.get_entry(0).unwrap().clone();
    e.set(jm.hash_table(), "A", FieldValue::Int(77));
    jm.set_entry(0, e).unwrap();
    assert_eq!(jm.get_entry(0).unwrap().get_int_by_hash(calc_hash("A")), Some(77));
    assert_eq!(
        jm.set_entry(3, Entry::default()),
        Err(JMapError::EntryIndexOutOfBounds { index: 3, len: 1 })
    );
    jm.clear_entries();
    assert_eq!(jm.len(), 0);
    assert!(jm.is_empty());
    assert_eq!(jm.num_fields(), 1);
}

#[test]
fn test_entry_accessors() {
    let table = smg_hash_table();
    let mut e = Entry::default();
    assert!(e.is_empty());
    e.set_by_hash(1, FieldValue::Int(-4));
    e.set_by_hash(2, FieldValue::Float(2.5f32.to_bits()));
    e.set(&table, "Name", FieldValue::String(String::from("hi")));
    assert_eq!(e.len(), 3);
    assert!(e.contains_hash(1));
    assert!(e.contains(&table, "Name"));
    assert!(!e.contains_hash(99));
    assert_eq!(e.get_int_by_hash(1), Some(-4));
    assert_eq!(e.get_float_bits_by_hash(2), Some(2.5f32.to_bits()));
    assert_eq!(e.get_string(&table, "Name"), Some("hi"));
    assert_eq!(e.get_string_by_hash(1), None);
    // overwrite keeps one value per hash
    e.set_by_hash(1, FieldValue::Int(10));
    assert_eq!(e.len(), 3);
    assert_eq!(e.get_int_by_hash(1), Some(10));
    assert_eq!(e.iter().len(), 3);
}

#[test]
fn test_recalculate_offsets_orders_and_aligns() {
    let mut jm = sample();
    jm.create_field("C", FieldType::Char, FieldValue::Int(0)).unwrap();
    jm.create_field("S", FieldType::Short, FieldValue::Int(0)).unwrap();
    jm.create_field("L", FieldType::Long, FieldValue::Int(0)).unwrap();
    jm.create_field("T", FieldType::StringOffset, FieldValue::String(String::new())).unwrap();
    jm.recalculate_offsets();
    // layout order: Long (rank 2), Short (4), Char (5), StringOffset (6)
    assert_eq!(jm.get_field("L").unwrap().offset, 0);
    assert_eq!(jm.get_field("S").unwrap().offset, 4);
    assert_eq!(jm.get_field("C").unwrap().offset, 6);
    assert_eq!(jm.get_field("T").unwrap().offset, 7);
    // 4 + 2 + 1 + 4 = 11, aligned up to 12
}

#[test]
fn test_field_hashes_in_insertion_order() {
    let mut jm = sample();
    jm.create_field("B", FieldType::Long, FieldValue::Int(0)).unwrap();
    jm.create_field("A", FieldType::Long, FieldValue::Int(0)).unwrap();
    let hashes = jm.field_hashes();
    assert_eq!(hashes, vec![calc_hash("B"), calc_hash("A")]);
    assert_eq!(jm.fields().len(), 2);
    assert_eq!(jm.field_name(calc_hash("A")), "A");
    assert_eq!(jm.field_name(0xDEADBEEF), "[DEADBEEF]");
}

#[test]
fn test_add_name() {
    let mut jm = sample();
    let h = jm.add_name("ZoneName");
    assert_eq!(h, 0x3666C077);
    assert_eq!(jm.field_name(h), "ZoneName");
}
