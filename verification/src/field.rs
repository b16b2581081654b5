//! The field (column) model: on-wire value types, the value union, and the
//! per-column definition record.

use vstd::prelude::*;

verus! {

/// Data types supported by the BCSV format.
#[derive(Debug, Clone, Copy, PartialEq, Eq, Hash, Structural)]
pub enum FieldType {
    /// Signed 32-bit integer (4 bytes), on-wire type code 0.
    Long,
    /// Inline text, 32 bytes fixed, null-terminated; type code 1.
    String,
    /// 32-bit IEEE-754 value (4 bytes), type code 2.
    Float,
    /// Unsigned 32-bit integer (4 bytes), type code 3.
    UnsignedLong,
    /// Signed 16-bit integer (2 bytes), type code 4.
    Short,
    /// Signed 8-bit integer (1 byte), type code 5.
    Char,
    /// Text stored in the trailing string pool (4-byte offset), type code 6.
    StringOffset,
}

/// Byte width of a field of type `t` inside a row record.
pub open spec fn spec_size(t: FieldType) -> nat {
    match t {
        FieldType::Long => 4,
        FieldType::String => 32,
        FieldType::Float => 4,
        FieldType::UnsignedLong => 4,
        FieldType::Short => 2,
        FieldType::Char => 1,
        FieldType::StringOffset => 4,
    }
}

/// Full-width default bit mask of a field of type `t`.
pub open spec fn spec_default_mask(t: FieldType) -> u32 {
    match t {
        FieldType::Long => 0xFFFFFFFF,
        FieldType::String => 0x00000000,
        FieldType::Float => 0xFFFFFFFF,
        FieldType::UnsignedLong => 0xFFFFFFFF,
        FieldType::Short => 0x0000FFFF,
        FieldType::Char => 0x000000FF,
        FieldType::StringOffset => 0xFFFFFFFF,
    }
}

/// Layout-order rank of `t`: fields are grouped by this rank, in this order,
/// when row offsets are computed.
pub open spec fn spec_order(t: FieldType) -> u8 {
    match t {
        FieldType::String => 0,
        FieldType::Float => 1,
        FieldType::Long => 2,
        FieldType::UnsignedLong => 3,
        FieldType::Short => 4,
        FieldType::Char => 5,
        FieldType::StringOffset => 6,
    }
}

/// On-wire type code of `t`.
pub open spec fn spec_type_code(t: FieldType) -> u8 {
    match t {
        FieldType::Long => 0,
        FieldType::String => 1,
        FieldType::Float => 2,
        FieldType::UnsignedLong => 3,
        FieldType::Short => 4,
        FieldType::Char => 5,
        FieldType::StringOffset => 6,
    }
}

/// The type a raw on-wire code denotes, if any: codes 0 through 6 map
/// bijectively onto the seven types.
pub open spec fn spec_from_raw(value: u8) -> Option<FieldType> {
    if value == 0 {
        Some(FieldType::Long)
    } else if value == 1 {
        Some(FieldType::String)
    } else if value == 2 {
        Some(FieldType::Float)
    } else if value == 3 {
        Some(FieldType::UnsignedLong)
    } else if value == 4 {
        Some(FieldType::Short)
    } else if value == 5 {
        Some(FieldType::Char)
    } else if value == 6 {
        Some(FieldType::StringOffset)
    } else {
        None
    }
}

impl FieldType {
    /// Size in bytes for this field type.
    pub fn size(&self) -> (r: usize)
        ensures
            r == spec_size(*self),
    {
        match self {
            FieldType::Long => 4,
            FieldType::String => 32,
            FieldType::Float => 4,
            FieldType::UnsignedLong => 4,
            FieldType::Short => 2,
            FieldType::Char => 1,
            FieldType::StringOffset => 4,
        }
    }

    /// Default bitmask for this field type.
    pub fn default_mask(&self) -> (r: u32)
        ensures
            r == spec_default_mask(*self),
    {
        match self {
            FieldType::Long => 0xFFFFFFFF,
            FieldType::String => 0x00000000,
            FieldType::Float => 0xFFFFFFFF,
            FieldType::UnsignedLong => 0xFFFFFFFF,
            FieldType::Short => 0x0000FFFF,
            FieldType::Char => 0x000000FF,
            FieldType::StringOffset => 0xFFFFFFFF,
        }
    }

    /// Sorting order for field layout (used when calculating offsets).
    pub fn order(&self) -> (r: u8)
        ensures
            r == spec_order(*self),
    {
        match self {
            FieldType::String => 0,
            FieldType::Float => 1,
            FieldType::Long => 2,
            FieldType::UnsignedLong => 3,
            FieldType::Short => 4,
            FieldType::Char => 5,
            FieldType::StringOffset => 6,
        }
    }

    /// The raw on-wire code this type is written as.
    pub fn type_code(&self) -> (r: u8)
        ensures
            r == spec_type_code(*self),
    {
        match self {
            FieldType::Long => 0,
            FieldType::String => 1,
            FieldType::Float => 2,
            FieldType::UnsignedLong => 3,
            FieldType::Short => 4,
            FieldType::Char => 5,
            FieldType::StringOffset => 6,
        }
    }

    /// Parse a field type from its raw on-wire code; any code above 6 is
    /// rejected.
    pub fn from_raw(value: u8) -> (r: Option<FieldType>)
        ensures
            r == spec_from_raw(value),
    {
        match value {
            0 => Some(FieldType::Long),
            1 => Some(FieldType::String),
            2 => Some(FieldType::Float),
            3 => Some(FieldType::UnsignedLong),
            4 => Some(FieldType::Short),
            5 => Some(FieldType::Char),
            6 => Some(FieldType::StringOffset),
            _ => None,
        }
    }
}

/// Decoding a type's own code yields the type back: the code assignment is
/// injective over the seven types.
pub proof fn lemma_type_code_round_trip(t: FieldType)
    ensures
        spec_from_raw(spec_type_code(t)) == Some(t),
{
}

/// Every accepted raw code re-encodes to itself: the two conversions are
/// inverse over the valid code range.
pub proof fn lemma_from_raw_round_trip(value: u8)
    requires
        value <= 6,
    ensures
        spec_from_raw(value) matches Some(t) && spec_type_code(t) == value,
{
}

/// A value held by a row for one field.
///
/// Float values are carried as their raw IEEE-754 bit pattern: the codec
/// never interprets them, it only moves the four bytes.
#[derive(Debug, Clone, PartialEq)]
pub enum FieldValue {
    /// Integer value (for Long, UnsignedLong, Short, Char).
    Int(i32),
    /// 32-bit IEEE-754 value, as its raw bit pattern.
    Float(u32),
    /// Text value (for String or StringOffset).
    String(String),
}

/// Whether a value's variant may back a field of type `t`: integers back the
/// four integer types, floats the float type, text the two text types.
pub open spec fn spec_compatible(v: FieldValue, t: FieldType) -> bool {
    match v {
        FieldValue::Int(_) => t == FieldType::Long || t == FieldType::UnsignedLong || t
            == FieldType::Short || t == FieldType::Char,
        FieldValue::Float(_) => t == FieldType::Float,
        FieldValue::String(_) => t == FieldType::String || t == FieldType::StringOffset,
    }
}

/// Whether `v` is the default value of a field of type `t`: zero for the
/// integer types, positive zero for float, empty text for the text types.
pub open spec fn spec_is_default_for(v: FieldValue, t: FieldType) -> bool {
    match t {
        FieldType::Long | FieldType::UnsignedLong | FieldType::Short | FieldType::Char
            => v == FieldValue::Int(0i32),
        FieldType::Float => v == FieldValue::Float(0u32),
        FieldType::String | FieldType::StringOffset
            => v matches FieldValue::String(s) && s@ == Seq::<char>::empty(),
    }
}

impl FieldValue {
    /// Get the default value for a field type.
    pub fn default_for(field_type: FieldType) -> (r: FieldValue)
        ensures
            spec_is_default_for(r, field_type),
            spec_compatible(r, field_type),
    {
        match field_type {
            FieldType::Long | FieldType::UnsignedLong | FieldType::Short | FieldType::Char
                => FieldValue::Int(0),
            FieldType::Float => FieldValue::Float(0),
            FieldType::String | FieldType::StringOffset => FieldValue::String(String::new()),
        }
    }

    /// Check if this value is compatible with a field type.
    pub fn is_compatible_with(&self, field_type: FieldType) -> (r: bool)
        ensures
            r == spec_compatible(*self, field_type),
    {
        match (self, field_type) {
            (FieldValue::Int(_), FieldType::Long)
            | (FieldValue::Int(_), FieldType::UnsignedLong)
            | (FieldValue::Int(_), FieldType::Short)
            | (FieldValue::Int(_), FieldType::Char) => true,
            (FieldValue::Float(_), FieldType::Float) => true,
            (FieldValue::String(_), FieldType::String)
            | (FieldValue::String(_), FieldType::StringOffset) => true,
            _ => false,
        }
    }

    /// Get as integer, if this is an Int value.
    pub fn as_int(&self) -> (r: Option<i32>)
        ensures
            r == (match *self {
                FieldValue::Int(v) => Some(v),
                _ => None::<i32>,
            }),
    {
        match self {
            FieldValue::Int(v) => Some(*v),
            _ => None,
        }
    }

    /// Get the raw IEEE-754 bit pattern, if this is a Float value.
    pub fn as_float_bits(&self) -> (r: Option<u32>)
        ensures
            r == (match *self {
                FieldValue::Float(v) => Some(v),
                _ => None::<u32>,
            }),
    {
        match self {
            FieldValue::Float(v) => Some(*v),
            _ => None,
        }
    }

    /// Get as text, if this is a String value.
    pub fn as_str(&self) -> (r: Option<&str>)
        ensures
            (match *self {
                FieldValue::String(_) => r is Some,
                _ => r is None,
            }),
            r matches Some(s) ==> *self matches FieldValue::String(v) && s@ == v@,
    {
        match self {
            FieldValue::String(v) => Some(v.as_str()),
            _ => None,
        }
    }

    /// Get the variant's name, for error reports.
    pub fn variant_name(&self) -> (r: &'static str)
        ensures
            (match *self {
                FieldValue::Int(_) => r@ == "Int"@,
                FieldValue::Float(_) => r@ == "Float"@,
                FieldValue::String(_) => r@ == "String"@,
            }),
    {
        match self {
            FieldValue::Int(_) => "Int",
            FieldValue::Float(_) => "Float",
            FieldValue::String(_) => "String",
        }
    }
}

/// Definition of a field (column) in a BCSV table.
#[derive(Debug, Clone, PartialEq)]
pub struct Field {
    /// Hash of the field name.
    pub hash: u32,
    /// Bitmask selecting this field's bits within its storage word.
    pub mask: u32,
    /// Byte offset within a row record (set when offsets are computed).
    pub offset: u16,
    /// Data type of the field.
    pub field_type: FieldType,
    /// Bit shift amount within the storage word.
    pub shift: u8,
    /// Default value for new entries.
    pub default: FieldValue,
}

impl Field {
    /// Create a new field with the type's default mask, zero shift, zero
    /// offset and the type's default value.
    pub fn new(hash: u32, field_type: FieldType) -> (r: Field)
        ensures
            r.hash == hash,
            r.field_type == field_type,
            r.mask == spec_default_mask(field_type),
            r.shift == 0,
            r.offset == 0,
            spec_is_default_for(r.default, field_type),
    {
        Field {
            hash,
            field_type,
            mask: field_type.default_mask(),
            shift: 0,
            offset: 0,
            default: FieldValue::default_for(field_type),
        }
    }

    /// Create a new field with a custom default value.
    pub fn with_default(hash: u32, field_type: FieldType, default: FieldValue) -> (r: Field)
        ensures
            r.hash == hash,
            r.field_type == field_type,
            r.mask == spec_default_mask(field_type),
            r.shift == 0,
            r.offset == 0,
            r.default == default,
    {
        Field { hash, field_type, mask: field_type.default_mask(), shift: 0, offset: 0, default }
    }

    /// Size of this field in bytes.
    pub fn size(&self) -> (r: usize)
        ensures
            r == spec_size(self.field_type),
    {
        self.field_type.size()
    }
}

impl FieldType {
    /// The spelling of this type in interchange column headers.
    pub fn csv_name(&self) -> (r: &'static str)
        ensures
            r@ == spec_csv_name(*self),
    {
        proof {
            reveal_strlit("Int");
            reveal_strlit("EmbeddedString");
            reveal_strlit("Float");
            reveal_strlit("UnsignedInt");
            reveal_strlit("Short");
            reveal_strlit("Char");
            reveal_strlit("String");
        }
        match self {
            FieldType::Long => "Int",
            FieldType::String => "EmbeddedString",
            FieldType::Float => "Float",
            FieldType::UnsignedLong => "UnsignedInt",
            FieldType::Short => "Short",
            FieldType::Char => "Char",
            FieldType::StringOffset => "String",
        }
    }

    /// Parse a field type from its interchange spelling; the two directions
    /// are inverse over the seven types.
    pub fn from_csv_name(name: &str) -> (r: Option<FieldType>)
        ensures
            r == spec_from_csv_name(name@),
    {
        if crate::text::str_eq(name, "Int") {
            Some(FieldType::Long)
        } else if crate::text::str_eq(name, "EmbeddedString") {
            Some(FieldType::String)
        } else if crate::text::str_eq(name, "Float") {
            Some(FieldType::Float)
        } else if crate::text::str_eq(name, "UnsignedInt") {
            Some(FieldType::UnsignedLong)
        } else if crate::text::str_eq(name, "Short") {
            Some(FieldType::Short)
        } else if crate::text::str_eq(name, "Char") {
            Some(FieldType::Char)
        } else if crate::text::str_eq(name, "String") {
            Some(FieldType::StringOffset)
        } else {
            None
        }
    }
}

/// The interchange spelling of each type.
pub open spec fn spec_csv_name(t: FieldType) -> Seq<char> {
    match t {
        FieldType::Long => "Int"@,
        FieldType::String => "EmbeddedString"@,
        FieldType::Float => "Float"@,
        FieldType::UnsignedLong => "UnsignedInt"@,
        FieldType::Short => "Short"@,
        FieldType::Char => "Char"@,
        FieldType::StringOffset => "String"@,
    }
}

/// The type an interchange spelling denotes, if any.
pub open spec fn spec_from_csv_name(name: Seq<char>) -> Option<FieldType> {
    if name == "Int"@ {
        Some(FieldType::Long)
    } else if name == "EmbeddedString"@ {
        Some(FieldType::String)
    } else if name == "Float"@ {
        Some(FieldType::Float)
    } else if name == "UnsignedInt"@ {
        Some(FieldType::UnsignedLong)
    } else if name == "Short"@ {
        Some(FieldType::Short)
    } else if name == "Char"@ {
        Some(FieldType::Char)
    } else if name == "String"@ {
        Some(FieldType::StringOffset)
    } else {
        None
    }
}

/// Each type's interchange spelling parses back to the type: the spellings
/// are pairwise distinct.
pub proof fn lemma_csv_name_round_trip(t: FieldType)
    ensures
        spec_from_csv_name(spec_csv_name(t)) == Some(t),
{
    reveal_strlit("Int");
    reveal_strlit("EmbeddedString");
    reveal_strlit("Float");
    reveal_strlit("UnsignedInt");
    reveal_strlit("Short");
    reveal_strlit("Char");
    reveal_strlit("String");
    assert("Int"@.len() == 3);
    assert("EmbeddedString"@.len() == 14);
    assert("Float"@.len() == 5);
    assert("UnsignedInt"@.len() == 11);
    assert("Short"@.len() == 5);
    assert("Char"@.len() == 4);
    assert("String"@.len() == 6);
    assert("Float"@[0] == 'F' && "Short"@[0] == 'S');
}

/// The interchange cell text for an absent value of each type, as the
/// delimited-text adapter writes it.
pub fn default_csv_value(field_type: FieldType) -> (r: &'static str)
    ensures
        field_type == FieldType::Float ==> r@ == "0.0"@,
        field_type != FieldType::Float ==> r@ == "0"@,
    {
    match field_type {
        FieldType::Long | FieldType::UnsignedLong | FieldType::Short | FieldType::Char => "0",
        FieldType::Float => "0.0",
        FieldType::String | FieldType::StringOffset => "0",
    }
}

impl FieldValue {
    /// A copy of this value equal to the original.
    pub fn duplicate(&self) -> (r: FieldValue)
        ensures
            r == *self,
    {
        match self {
            FieldValue::Int(v) => FieldValue::Int(*v),
            FieldValue::Float(v) => FieldValue::Float(*v),
            FieldValue::String(s) => FieldValue::String(s.clone()),
        }
    }
}

impl Field {
    /// A copy of this field equal to the original.
    pub fn duplicate(&self) -> (r: Field)
        ensures
            r == *self,
    {
        Field {
            hash: self.hash,
            mask: self.mask,
            offset: self.offset,
            field_type: self.field_type,
            shift: self.shift,
            default: self.default.duplicate(),
        }
    }
}


} // verus!
