use jmap::error::JMapError;
use jmap::field::{FieldType, FieldValue};
use jmap::hash::{calc_hash, smg_hash_table, FileHashTable};
use jmap::io::{from_buffer, to_buffer, Encoding, IoOptions};
use jmap::jmap::JMapInfo;

fn push_u32_be(v: &mut Vec<u8>, x: u32) {
    v.extend_from_slice(&x.to_be_bytes());
}

/// The scenario buffer: one entry, one Long field named "Test", row region at
/// 0x1C, row size 4, value 7, big-endian.
fn scenario_buffer() -> Vec<u8> {
    let mut data: Vec<u8> = Vec::new();
    push_u32_be(&mut data, 1); // entry count
    push_u32_be(&mut data, 1); // field count
    push_u32_be(&mut data, 0x1C); // offset to row region
    push_u32_be(&mut data, 4); // row size
    push_u32_be(&mut data, calc_hash("Test")); // field hash
    push_u32_be(&mut data, 0xFFFFFFFF); // mask
    data.extend_from_slice(&0u16.to_be_bytes()); // field offset
    data.push(0); // shift
    data.push(0); // type code: Long
    push_u32_be(&mut data, 7); // the row value
    data
}

#[test]
fn test_scenario_decode_and_reencode() {
    let data = scenario_buffer();
    let opts = IoOptions::super_mario_galaxy();
    let mut table = smg_hash_table();
    jmap::hash::HashTable::add(&mut table, "Test");
    let jm = from_buffer(table, &data, &opts).unwrap();
    assert_eq!(jm.len(), 1);
    assert_eq!(jm.num_fields(), 1);
    let e = jm.get_entry(0).unwrap();
    assert_eq!(e.get_int(jm.hash_table(), "Test"), Some(7));

    // Re-encode and decode again: the row survives.
    let out = to_buffer(&jm, &opts).unwrap();
    let jm2 = from_buffer(smg_hash_table(), &out, &opts).unwrap();
    assert_eq!(jm2.len(), 1);
    assert_eq!(
        jm2.get_entry(0).unwrap().get_int_by_hash(calc_hash("Test")),
        Some(7)
    );
}

#[test]
fn test_buffer_too_small() {
    let opts = IoOptions::default();
    let r = from_buffer(smg_hash_table(), &[0u8; 10], &opts);
    match r {
        Err(e) => assert_eq!(e, JMapError::BufferTooSmall { expected: 16, got: 10 }),
        Ok(_) => panic!("expected an error"),
    }
}

#[test]
fn test_invalid_field_type_code() {
    let mut data = scenario_buffer();
    data[0x1B] = 9; // corrupt the type code
    let opts = IoOptions::super_mario_galaxy();
    let r = from_buffer(smg_hash_table(), &data, &opts);
    match r {
        Err(e) => assert_eq!(e, JMapError::InvalidFieldType(9)),
        Ok(_) => panic!("expected an error"),
    }
}

fn build_full_table() -> JMapInfo<FileHashTable> {
    let mut jm = JMapInfo::new(smg_hash_table());
    jm.create_field("L", FieldType::Long, FieldValue::Int(0)).unwrap();
    jm.create_field("U", FieldType::UnsignedLong, FieldValue::Int(0)).unwrap();
    jm.create_field("S", FieldType::Short, FieldValue::Int(0)).unwrap();
    jm.create_field("C", FieldType::Char, FieldValue::Int(0)).unwrap();
    jm.create_field("F", FieldType::Float, FieldValue::Float(0)).unwrap();
    jm.create_field("E", FieldType::String, FieldValue::String(String::new())).unwrap();
    jm.create_field("T", FieldType::StringOffset, FieldValue::String(String::new())).unwrap();
    jm
}

#[test]
fn test_round_trip_all_types() {
    let mut jm = build_full_table();
    let i = jm.create_entry();
    let mut e = jm.get_entry(i).unwrap().clone();
    let table = smg_hash_table();
    e.set(&table, "L", FieldValue::Int(-123456));
    e.set(&table, "U", FieldValue::Int(-1)); // 0xFFFFFFFF on the wire
    e.set(&table, "S", FieldValue::Int(-2));
    e.set(&table, "C", FieldValue::Int(-3));
    e.set(&table, "F", FieldValue::Float(1.25f32.to_bits()));
    e.set(&table, "E", FieldValue::String(String::from("inline")));
    e.set(&table, "T", FieldValue::String(String::from("pooled")));
    jm.set_entry(i, e).unwrap();

    let opts = IoOptions::super_mario_galaxy();
    let out = to_buffer(&jm, &opts).unwrap();
    assert_eq!(out.len() % 32, 0);

    let jm2 = from_buffer(smg_hash_table(), &out, &opts).unwrap();
    assert_eq!(jm2.num_fields(), 7);
    assert_eq!(jm2.len(), 1);
    let e2 = jm2.get_entry(0).unwrap();
    assert_eq!(e2.get_int_by_hash(calc_hash("L")), Some(-123456));
    assert_eq!(e2.get_int_by_hash(calc_hash("U")), Some(-1));
    assert_eq!(e2.get_int_by_hash(calc_hash("S")), Some(-2));
    assert_eq!(e2.get_int_by_hash(calc_hash("C")), Some(-3));
    assert_eq!(e2.get_float_bits_by_hash(calc_hash("F")), Some(1.25f32.to_bits()));
    assert_eq!(e2.get_string_by_hash(calc_hash("E")), Some("inline"));
    assert_eq!(e2.get_string_by_hash(calc_hash("T")), Some("pooled"));
}

#[test]
fn test_round_trip_little_endian_utf8() {
    let mut jm = JMapInfo::new(smg_hash_table());
    jm.create_field("T", FieldType::StringOffset, FieldValue::String(String::new())).unwrap();
    jm.create_field("L", FieldType::Long, FieldValue::Int(0)).unwrap();
    let i = jm.create_entry();
    let mut e = jm.get_entry(i).unwrap().clone();
    let table = smg_hash_table();
    e.set(&table, "T", FieldValue::String(String::from("caf\u{e9} \u{3042}")));
    e.set(&table, "L", FieldValue::Int(0x01020304));
    jm.set_entry(i, e).unwrap();

    let opts = IoOptions { big_endian: false, encoding: Encoding::Utf8 };
    let out = to_buffer(&jm, &opts).unwrap();
    let jm2 = from_buffer(smg_hash_table(), &out, &opts).unwrap();
    let e2 = jm2.get_entry(0).unwrap();
    assert_eq!(e2.get_string_by_hash(calc_hash("T")), Some("caf\u{e9} \u{3042}"));
    assert_eq!(e2.get_int_by_hash(calc_hash("L")), Some(0x01020304));
}

#[test]
fn test_short_and_char_narrow_on_encode() {
    // Values wider than the declared field wrap to the field's width with
    // sign extension, like the wire format stores them.
    let mut jm = JMapInfo::new(smg_hash_table());
    jm.create_field("S", FieldType::Short, FieldValue::Int(0)).unwrap();
    jm.create_field("C", FieldType::Char, FieldValue::Int(0)).unwrap();
    let i = jm.create_entry();
    let mut e = jm.get_entry(i).unwrap().clone();
    let table = smg_hash_table();
    e.set(&table, "S", FieldValue::Int(0x12345));
    e.set(&table, "C", FieldValue::Int(0x1FF));
    jm.set_entry(i, e).unwrap();
    let opts = IoOptions::super_mario_galaxy();
    let out = to_buffer(&jm, &opts).unwrap();
    let jm2 = from_buffer(smg_hash_table(), &out, &opts).unwrap();
    let e2 = jm2.get_entry(0).unwrap();
    assert_eq!(e2.get_int_by_hash(calc_hash("S")), Some(0x2345));
    assert_eq!(e2.get_int_by_hash(calc_hash("C")), Some(-1));
}

fn count_occurrences(haystack: &[u8], needle: &[u8]) -> usize {
    if needle.is_empty() || haystack.len() < needle.len() {
        return 0;
    }
    let mut n = 0;
    for i in 0..=haystack.len() - needle.len() {
        if &haystack[i..i + needle.len()] == needle {
            n += 1;
        }
    }
    n
}

#[test]
fn test_string_pool_dedup() {
    let mut jm = JMapInfo::new(smg_hash_table());
    jm.create_field("T", FieldType::StringOffset, FieldValue::String(String::new())).unwrap();
    let table = smg_hash_table();
    for _ in 0..2 {
        let i = jm.create_entry();
        let mut e = jm.get_entry(i).unwrap().clone();
        e.set(&table, "T", FieldValue::String(String::from("sharedtext")));
        jm.set_entry(i, e).unwrap();
    }
    let i = jm.create_entry();
    let mut e = jm.get_entry(i).unwrap().clone();
    e.set(&table, "T", FieldValue::String(String::from("othertext")));
    jm.set_entry(i, e).unwrap();

    let opts = IoOptions::super_mario_galaxy();
    let out = to_buffer(&jm, &opts).unwrap();
    // One copy of the shared text, one of the other.
    assert_eq!(count_occurrences(&out, b"sharedtext\0"), 1);
    assert_eq!(count_occurrences(&out, b"othertext\0"), 1);
    // Both rows that share the text store the same pool offset.
    let od = 16 + 12;
    let rs = 4;
    let so0 = u32::from_be_bytes([out[od], out[od + 1], out[od + 2], out[od + 3]]);
    let so1 = u32::from_be_bytes([
        out[od + rs],
        out[od + rs + 1],
        out[od + rs + 2],
        out[od + rs + 3],
    ]);
    let so2 = u32::from_be_bytes([
        out[od + 2 * rs],
        out[od + 2 * rs + 1],
        out[od + 2 * rs + 2],
        out[od + 2 * rs + 3],
    ]);
    assert_eq!(so0, so1);
    assert_ne!(so0, so2);
}

#[test]
fn test_alignment_and_pad_byte() {
    // Two Long fields, one row: 16 + 24 + 8 = 48 bytes before padding, no
    // pool, so 16 pad bytes bring the buffer to 64.
    let mut jm = JMapInfo::new(smg_hash_table());
    jm.create_field("A", FieldType::Long, FieldValue::Int(1)).unwrap();
    jm.create_field("B", FieldType::Long, FieldValue::Int(2)).unwrap();
    jm.create_entry();
    let opts = IoOptions::super_mario_galaxy();
    let out = to_buffer(&jm, &opts).unwrap();
    assert_eq!(out.len(), 64);
    for i in 48..64 {
        assert_eq!(out[i], 0x40);
    }
    // Row size is a multiple of four in the header.
    let rs = u32::from_be_bytes([out[12], out[13], out[14], out[15]]);
    assert_eq!(rs % 4, 0);
    assert_eq!(rs, 8);
}

#[test]
fn test_encode_type_mismatch() {
    let mut jm = JMapInfo::new(smg_hash_table());
    jm.create_field("A", FieldType::Long, FieldValue::Int(0)).unwrap();
    let i = jm.create_entry();
    let mut e = jm.get_entry(i).unwrap().clone();
    e.set_by_hash(calc_hash("A"), FieldValue::String(String::from("oops")));
    jm.set_entry(i, e).unwrap();
    let opts = IoOptions::super_mario_galaxy();
    match to_buffer(&jm, &opts) {
        Err(JMapError::TypeMismatch { expected, got }) => {
            assert_eq!(expected, "Int");
            assert_eq!(got, "String");
        },
        _ => panic!("expected a type mismatch"),
    }
}

#[test]
fn test_unknown_hash_values_are_skipped() {
    // A value held under a hash no field carries is silently left out.
    let mut jm = JMapInfo::new(smg_hash_table());
    jm.create_field("A", FieldType::Long, FieldValue::Int(5)).unwrap();
    let i = jm.create_entry();
    let mut e = jm.get_entry(i).unwrap().clone();
    e.set_by_hash(0xAAAAAAAA, FieldValue::String(String::from("phantom")));
    jm.set_entry(i, e).unwrap();
    let opts = IoOptions::super_mario_galaxy();
    let out = to_buffer(&jm, &opts).unwrap();
    let jm2 = from_buffer(smg_hash_table(), &out, &opts).unwrap();
    let e2 = jm2.get_entry(0).unwrap();
    assert_eq!(e2.get_int_by_hash(calc_hash("A")), Some(5));
    assert_eq!(e2.get_by_hash(0xAAAAAAAA), None);
    assert_eq!(count_occurrences(&out, b"phantom"), 0);
}

#[test]
fn test_shiftjis_text_round_trip() {
    let mut jm = JMapInfo::new(smg_hash_table());
    jm.create_field("T", FieldType::StringOffset, FieldValue::String(String::new())).unwrap();
    let i = jm.create_entry();
    let mut e = jm.get_entry(i).unwrap().clone();
    let table = smg_hash_table();
    e.set(&table, "T", FieldValue::String(String::from("\u{30de}\u{30ea}\u{30aa}")));
    jm.set_entry(i, e).unwrap();
    let opts = IoOptions::super_mario_galaxy();
    let out = to_buffer(&jm, &opts).unwrap();
    let jm2 = from_buffer(smg_hash_table(), &out, &opts).unwrap();
    assert_eq!(
        jm2.get_entry(0).unwrap().get_string_by_hash(calc_hash("T")),
        Some("\u{30de}\u{30ea}\u{30aa}")
    );
}

#[test]
fn test_inline_string_truncates_at_32_bytes() {
    let mut jm = JMapInfo::new(smg_hash_table());
    jm.create_field("E", FieldType::String, FieldValue::String(String::new())).unwrap();
    let i = jm.create_entry();
    let mut e = jm.get_entry(i).unwrap().clone();
    let table = smg_hash_table();
    let long = "abcdefghijklmnopqrstuvwxyz0123456789"; // 36 bytes
    e.set(&table, "E", FieldValue::String(String::from(long)));
    jm.set_entry(i, e).unwrap();
    let opts = IoOptions::super_mario_galaxy();
    let out = to_buffer(&jm, &opts).unwrap();
    let jm2 = from_buffer(smg_hash_table(), &out, &opts).unwrap();
    assert_eq!(
        jm2.get_entry(0).unwrap().get_string_by_hash(calc_hash("E")),
        Some("abcdefghijklmnopqrstuvwxyz012345")
    );
}

#[test]
fn test_header_words() {
    let mut jm = build_full_table();
    jm.create_entry();
    jm.create_entry();
    let opts = IoOptions::super_mario_galaxy();
    let out = to_buffer(&jm, &opts).unwrap();
    let ne = u32::from_be_bytes([out[0], out[1], out[2], out[3]]);
    let nf = u32::from_be_bytes([out[4], out[5], out[6], out[7]]);
    let od = u32::from_be_bytes([out[8], out[9], out[10], out[11]]);
    assert_eq!(ne, 2);
    assert_eq!(nf, 7);
    assert_eq!(od, 16 + 7 * 12);
}
