use jmap::hash::{
    calc_hash, parse_fallback_name, smg_hash_table, smg_hash_table_with_lines, FileHashTable,
    HashAlgorithm, HashTable,
};

#[test]
fn test_hash() {
    // Known hash values for the Super Mario Galaxy tables.
    assert_eq!(calc_hash("ScenarioNo"), 0xED08B591);
    assert_eq!(calc_hash("ZoneName"), 0x3666C077);
}

#[test]
fn test_hash_table() {
    let mut table = smg_hash_table();

    // Add a field and verify lookup
    let hash = table.add("TestField");
    assert_eq!(table.find(hash), "TestField");

    // Unknown hash should return hex representation
    let unknown = table.find(0xDEADBEEF);
    assert_eq!(unknown, "[DEADBEEF]");
}

#[test]
fn test_fallback_is_zero_padded_uppercase_hex() {
    let table = smg_hash_table();
    assert_eq!(table.find(0x0000001A), "[0000001A]");
    assert_eq!(table.find(0), "[00000000]");
    assert_eq!(table.find(u32::MAX), "[FFFFFFFF]");
}

#[test]
fn test_parse_fallback_name() {
    assert_eq!(parse_fallback_name("[DEADBEEF]"), Some(0xDEADBEEF));
    assert_eq!(parse_fallback_name("[0000001A]"), Some(0x1A));
    assert_eq!(parse_fallback_name("[deadbeef]"), Some(0xDEADBEEF));
    assert_eq!(parse_fallback_name("DEADBEEF"), None);
    assert_eq!(parse_fallback_name("[DEADBEE]"), None);
    assert_eq!(parse_fallback_name("[DEADBEEFF]"), None);
    assert_eq!(parse_fallback_name("[DEADBEEG]"), None);
    assert_eq!(parse_fallback_name(""), None);
}

#[test]
fn test_first_writer_wins_on_add() {
    let mut table = smg_hash_table();
    let h1 = table.add("SomeName");
    let h2 = table.add("SomeName");
    assert_eq!(h1, h2);
    assert_eq!(table.find(h1), "SomeName");
}

#[test]
fn test_calc_matches_algorithm() {
    let table = smg_hash_table();
    assert_eq!(table.algorithm(), HashAlgorithm::SMG);
    assert_eq!(table.calc("ScenarioNo"), 0xED08B591);
    assert_eq!(HashAlgorithm::SMG.calc("ZoneName"), 0x3666C077);
}

#[test]
fn test_from_lines_skips_blanks_and_comments() {
    let lines: Vec<String> = vec![
        String::from("ScenarioNo"),
        String::from(""),
        String::from("   "),
        String::from("# a comment"),
        String::from("  ZoneName  "),
    ];
    let table = smg_hash_table_with_lines(&lines);
    assert_eq!(table.find(0xED08B591), "ScenarioNo");
    assert_eq!(table.find(0x3666C077), "ZoneName");
    let table2 = FileHashTable::from_lines(HashAlgorithm::SMG, &lines);
    assert_eq!(table2.find(0x3666C077), "ZoneName");
}

#[test]
fn test_hash_of_high_bytes_is_signed() {
    // 0x80 contributes a negative term: hash = 0 * 31 + (0x80 as i8 as i32).
    let s = core::str::from_utf8(&[0xC2, 0x80]).unwrap();
    let expected = (0xC2u8 as i8 as i32 as u32)
        .wrapping_mul(31)
        .wrapping_add(0x80u8 as i8 as i32 as u32);
    assert_eq!(calc_hash(s), expected);
}
