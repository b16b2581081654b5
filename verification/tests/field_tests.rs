use jmap::field::{default_csv_value, Field, FieldType, FieldValue};

#[test]
fn test_type_sizes_and_masks() {
    assert_eq!(FieldType::Long.size(), 4);
    assert_eq!(FieldType::String.size(), 32);
    assert_eq!(FieldType::Float.size(), 4);
    assert_eq!(FieldType::UnsignedLong.size(), 4);
    assert_eq!(FieldType::Short.size(), 2);
    assert_eq!(FieldType::Char.size(), 1);
    assert_eq!(FieldType::StringOffset.size(), 4);

    assert_eq!(FieldType::Long.default_mask(), 0xFFFFFFFF);
    assert_eq!(FieldType::String.default_mask(), 0x00000000);
    assert_eq!(FieldType::Short.default_mask(), 0x0000FFFF);
    assert_eq!(FieldType::Char.default_mask(), 0x000000FF);
}

#[test]
fn test_layout_order_ranks() {
    assert_eq!(FieldType::String.order(), 0);
    assert_eq!(FieldType::Float.order(), 1);
    assert_eq!(FieldType::Long.order(), 2);
    assert_eq!(FieldType::UnsignedLong.order(), 3);
    assert_eq!(FieldType::Short.order(), 4);
    assert_eq!(FieldType::Char.order(), 5);
    assert_eq!(FieldType::StringOffset.order(), 6);
}

#[test]
fn test_from_raw_bijective() {
    for code in 0u8..7u8 {
        let t = FieldType::from_raw(code).unwrap();
        assert_eq!(t.type_code(), code);
    }
    assert_eq!(FieldType::from_raw(7), None);
    assert_eq!(FieldType::from_raw(0xFF), None);
}

#[test]
fn test_csv_names_inverse() {
    let all = [
        FieldType::Long,
        FieldType::String,
        FieldType::Float,
        FieldType::UnsignedLong,
        FieldType::Short,
        FieldType::Char,
        FieldType::StringOffset,
    ];
    for t in all {
        assert_eq!(FieldType::from_csv_name(t.csv_name()), Some(t));
    }
    assert_eq!(FieldType::Long.csv_name(), "Int");
    assert_eq!(FieldType::StringOffset.csv_name(), "String");
    assert_eq!(FieldType::String.csv_name(), "EmbeddedString");
    assert_eq!(FieldType::from_csv_name("NoSuchType"), None);
}

#[test]
fn test_default_values() {
    assert_eq!(FieldValue::default_for(FieldType::Long), FieldValue::Int(0));
    assert_eq!(FieldValue::default_for(FieldType::Float), FieldValue::Float(0));
    assert_eq!(
        FieldValue::default_for(FieldType::StringOffset),
        FieldValue::String(String::new())
    );
    assert_eq!(default_csv_value(FieldType::Float), "0.0");
    assert_eq!(default_csv_value(FieldType::Long), "0");
    assert_eq!(default_csv_value(FieldType::StringOffset), "0");
}

#[test]
fn test_compatibility() {
    let i = FieldValue::Int(-5);
    let f = FieldValue::Float(1.5f32.to_bits());
    let s = FieldValue::String(String::from("x"));
    assert!(i.is_compatible_with(FieldType::Long));
    assert!(i.is_compatible_with(FieldType::UnsignedLong));
    assert!(i.is_compatible_with(FieldType::Short));
    assert!(i.is_compatible_with(FieldType::Char));
    assert!(!i.is_compatible_with(FieldType::Float));
    assert!(!i.is_compatible_with(FieldType::String));
    assert!(f.is_compatible_with(FieldType::Float));
    assert!(!f.is_compatible_with(FieldType::Long));
    assert!(s.is_compatible_with(FieldType::String));
    assert!(s.is_compatible_with(FieldType::StringOffset));
    assert!(!s.is_compatible_with(FieldType::Char));
}

#[test]
fn test_accessors_and_names() {
    assert_eq!(FieldValue::Int(7).as_int(), Some(7));
    assert_eq!(FieldValue::Int(7).as_float_bits(), None);
    assert_eq!(FieldValue::Float(3).as_float_bits(), Some(3));
    assert_eq!(FieldValue::String(String::from("a")).as_str(), Some("a"));
    assert_eq!(FieldValue::Int(7).as_str(), None);
    assert_eq!(FieldValue::Int(0).variant_name(), "Int");
    assert_eq!(FieldValue::Float(0).variant_name(), "Float");
    assert_eq!(FieldValue::String(String::new()).variant_name(), "String");
}

#[test]
fn test_field_constructors() {
    let f = Field::new(0x1234, FieldType::Short);
    assert_eq!(f.hash, 0x1234);
    assert_eq!(f.mask, 0x0000FFFF);
    assert_eq!(f.shift, 0);
    assert_eq!(f.offset, 0);
    assert_eq!(f.default, FieldValue::Int(0));
    assert_eq!(f.size(), 2);

    let g = Field::with_default(1, FieldType::Long, FieldValue::Int(42));
    assert_eq!(g.default, FieldValue::Int(42));
}
