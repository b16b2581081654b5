//! The binary codec: decoding a byte buffer into a table container and
//! encoding a container back into bytes, with configurable endianness and
//! text encoding.

use vstd::prelude::*;
use vstd::string::*;
use vstd::utf8::{decode_utf8, encode_utf8, valid_utf8};
use crate::bytes::{
    get_u16, get_u32, put_u16, put_u32, spec_read_u16, spec_read_u32, u16_bytes, u32_bytes,
};
use crate::entry::{spec_lookup, spec_set, Entry};
use crate::error::JMapError;
use crate::field::{
    spec_compatible, spec_default_mask, spec_from_raw, spec_is_default_for, spec_size,
    spec_type_code, Field, FieldType, FieldValue,
};
use crate::hash::HashTable;
use crate::jmap::JMapInfo;
use crate::layout::{spec_row_size, spec_total_width, spec_with_offsets};
use crate::text::{sjis_bytes_of, sjis_chars_of, sjis_decode, sjis_encode, utf8_decode};

verus! {

broadcast use vstd::slice::group_slice_axioms;

/// Text encoding options for the string regions of a table.
#[derive(Debug, Clone, Copy, PartialEq, Eq, Structural)]
pub enum Encoding {
    /// Shift-JIS encoding.
    ShiftJis,
    /// UTF-8 encoding.
    Utf8,
}

/// Options for reading and writing BCSV buffers.
#[derive(Debug, Clone)]
pub struct IoOptions {
    /// Whether multi-byte words are big-endian (true) or little-endian.
    pub big_endian: bool,
    /// The encoding of inline and pooled text.
    pub encoding: Encoding,
}

impl Default for IoOptions {
    /// Big-endian words and Shift-JIS text.
    fn default() -> (r: Self)
        ensures
            r.big_endian == true,
            r.encoding == Encoding::ShiftJis,
    {
        IoOptions { big_endian: true, encoding: Encoding::ShiftJis }
    }
}

impl IoOptions {
    /// Options for the Super Mario Galaxy games (Wii): big-endian Shift-JIS.
    pub fn super_mario_galaxy() -> (r: Self)
        ensures
            r.big_endian == true,
            r.encoding == Encoding::ShiftJis,
    {
        IoOptions { big_endian: true, encoding: Encoding::ShiftJis }
    }
}

/// The bytes a character sequence encodes to under `enc`.
pub open spec fn spec_enc_bytes(enc: Encoding, s: Seq<char>) -> Seq<u8> {
    match enc {
        Encoding::Utf8 => encode_utf8(s),
        Encoding::ShiftJis => sjis_bytes_of(s),
    }
}

/// Whether a byte sequence decodes without error under `enc`: Shift-JIS
/// decoding substitutes rather than fails, UTF-8 decoding requires validity.
pub open spec fn spec_dec_ok(enc: Encoding, b: Seq<u8>) -> bool {
    match enc {
        Encoding::Utf8 => valid_utf8(b),
        Encoding::ShiftJis => true,
    }
}

/// The characters a byte sequence decodes to under `enc`.
pub open spec fn spec_dec_chars(enc: Encoding, b: Seq<u8>) -> Seq<char> {
    match enc {
        Encoding::Utf8 => decode_utf8(b),
        Encoding::ShiftJis => sjis_chars_of(b),
    }
}

/// A 32-bit word reinterpreted as a signed value (two's complement).
pub open spec fn spec_to_signed32(v: u32) -> i32 {
    if v >= 0x80000000 {
        (v - 0x100000000) as i32
    } else {
        v as i32
    }
}

/// A signed value reinterpreted as a 32-bit word (two's complement).
pub open spec fn spec_to_unsigned32(v: i32) -> u32 {
    if v < 0 {
        (v + 0x100000000) as u32
    } else {
        v as u32
    }
}

/// The bits of a field within its storage word: masked, then shifted down.
pub open spec fn spec_extract_bits(raw: u32, mask: u32, shift: u8) -> u32
    recommends
        shift < 32,
{
    (raw & mask) >> shift
}

/// The value decoded for a 32-bit integer field: the extracted bits as a
/// signed word.
pub open spec fn spec_extract_long(raw: u32, mask: u32, shift: u8) -> i32 {
    spec_to_signed32(spec_extract_bits(raw, mask, shift))
}

/// The value decoded for a 16-bit field: the extracted bits, sign-extended
/// from 16 bits after masking.
pub open spec fn spec_extract_short(raw: u16, mask: u32, shift: u8) -> i32 {
    let m = spec_extract_bits(raw as u32, mask, shift);
    if m & 0x8000 != 0 {
        spec_to_signed32(m | 0xFFFF0000)
    } else {
        spec_to_signed32(m)
    }
}

/// The value decoded for an 8-bit field: the extracted bits, sign-extended
/// from 8 bits after masking.
pub open spec fn spec_extract_char(raw: u8, mask: u32, shift: u8) -> i32 {
    let m = spec_extract_bits(raw as u32, mask, shift);
    if m & 0x80 != 0 {
        spec_to_signed32(m | 0xFFFFFF00)
    } else {
        spec_to_signed32(m)
    }
}

/// A field's bits combined into a 32-bit storage word, preserving the bits
/// outside its mask.
pub open spec fn spec_combine32(existing: u32, mask: u32, shift: u8, v: i32) -> u32
    recommends
        shift < 32,
{
    (existing & !mask) | ((spec_to_unsigned32(v) << shift) & mask)
}

/// A field's bits combined into a 16-bit storage word.
pub open spec fn spec_combine16(existing: u16, mask: u32, shift: u8, v: i32) -> u16 {
    ((((existing as u32) & !mask) | ((spec_to_unsigned32(v) << shift) & mask)) & 0xFFFF) as u16
}

/// A field's bits combined into an 8-bit storage word.
pub open spec fn spec_combine8(existing: u8, mask: u32, shift: u8, v: i32) -> u8 {
    ((((existing as u32) & !mask) | ((spec_to_unsigned32(v) << shift) & mask)) & 0xFF) as u8
}

/// The distance from `start` to the first zero byte, scanning at most `max`
/// bytes: `max` when no zero byte occurs in the window.
pub open spec fn spec_first_nul(bytes: Seq<u8>, start: int, max: int) -> int
    decreases max,
{
    if max <= 0 {
        0
    } else if bytes[start] == 0 {
        0
    } else {
        1 + spec_first_nul(bytes, start + 1, max - 1)
    }
}

/// Where the first-zero scan lands: within the window at a zero byte with
/// none before it, or at the window's end with no zero byte anywhere in it.
pub proof fn lemma_first_nul(bytes: Seq<u8>, start: int, max: int)
    requires
        0 <= start,
        0 <= max,
        start + max <= bytes.len(),
    ensures
        0 <= spec_first_nul(bytes, start, max) <= max,
        spec_first_nul(bytes, start, max) < max ==> bytes[start + spec_first_nul(
            bytes,
            start,
            max,
        )] == 0,
        forall|d: int| 0 <= d < spec_first_nul(bytes, start, max) ==> #[trigger] bytes[start + d]
            != 0,
    decreases max,
{
    if max > 0 && bytes[start] != 0 {
        lemma_first_nul(bytes, start + 1, max - 1);
        let r = spec_first_nul(bytes, start, max);
        assert forall|d: int| 0 <= d < r implies #[trigger] bytes[start + d] != 0 by {
            if d > 0 {
                assert(bytes[(start + 1) + (d - 1)] != 0);
            }
        }
    }
}

/// Find the distance to the first zero byte at or after `start`, scanning at
/// most `max` bytes.
fn scan_nul(data: &[u8], start: usize, max: usize) -> (r: usize)
    requires
        start + max <= data.len(),
    ensures
        r as int == spec_first_nul(data@, start as int, max as int),
{
    let mut d: usize = 0;
    while d < max
        invariant
            d <= max,
            start + max <= data.len(),
            forall|e: int| 0 <= e < d ==> #[trigger] data@[start + e] != 0,
            spec_first_nul(data@, start as int, max as int) == d + spec_first_nul(
                data@,
                start + d,
                max - d,
            ),
        decreases max - d,
    {
        if data[start + d] == 0 {
            return d;
        }
        d = d + 1;
    }
    d
}

/// Decode text bytes under the configured encoding. Shift-JIS decoding never
/// fails; UTF-8 decoding fails exactly on invalid UTF-8.
fn decode_text(bytes: &[u8], encoding: Encoding) -> (r: core::result::Result<String, JMapError>)
    requires
        bytes@.len() <= 0x10000000,
    ensures
        r is Ok <==> spec_dec_ok(encoding, bytes@),
        r matches Ok(s) ==> s@ == spec_dec_chars(encoding, bytes@),
        r is Err ==> r matches Err(JMapError::EncodingError(_)),
{
    match encoding {
        Encoding::Utf8 => {
            let v = vstd::slice::slice_to_vec(bytes);
            match utf8_decode(v) {
                Some(s) => Ok(s),
                None => Err(
                    JMapError::EncodingError(String::from_str("invalid UTF-8 text")),
                ),
            }
        },
        Encoding::ShiftJis => {
            let s = sjis_decode(bytes);
            Ok(s)
        },
    }
}

/// Encode text under the configured encoding. Neither encoding fails: UTF-8
/// encodes every string, Shift-JIS substitutes unmappable characters.
fn encode_text(s: &str, encoding: Encoding) -> (r: Vec<u8>)
    requires
        s.spec_bytes().len() <= 0x8000000,
    ensures
        r@ == spec_enc_bytes(encoding, s@),
{
    match encoding {
        Encoding::Utf8 => s.as_bytes_vec(),
        Encoding::ShiftJis => sjis_encode(s),
    }
}

/// Whether the bytes a value decode would read for `field` at `offset` are
/// all in bounds and decodable.
pub open spec fn spec_value_ok(
    bytes: Seq<u8>,
    offset: int,
    pool: int,
    field: Field,
    o: IoOptions,
) -> bool {
    match field.field_type {
        FieldType::Long | FieldType::UnsignedLong => offset + 4 <= bytes.len() && field.shift < 32,
        FieldType::Float => offset + 4 <= bytes.len(),
        FieldType::Short => offset + 2 <= bytes.len() && field.shift < 32,
        FieldType::Char => offset + 1 <= bytes.len() && field.shift < 32,
        FieldType::String => offset + 32 <= bytes.len() && spec_dec_ok(
            o.encoding,
            bytes.subrange(offset, offset + spec_first_nul(bytes, offset, 32)),
        ),
        FieldType::StringOffset => offset + 4 <= bytes.len() && {
            let st = pool + spec_read_u32(bytes, offset, o.big_endian);
            st <= bytes.len() && spec_dec_ok(
                o.encoding,
                bytes.subrange(st, st + spec_pool_run(bytes, st)),
            )
        },
    }
}

/// The length of the pooled string starting at `st`: the distance to the
/// first zero byte, or zero when no terminator exists before the buffer's
/// end.
pub open spec fn spec_pool_run(bytes: Seq<u8>, st: int) -> int {
    let m = spec_first_nul(bytes, st, bytes.len() - st);
    if m == bytes.len() - st {
        0
    } else {
        m
    }
}

/// Whether `v` is the value `field` decodes to from `bytes` at `offset`,
/// with the string pool at `pool`.
pub open spec fn spec_value_matches(
    v: FieldValue,
    bytes: Seq<u8>,
    offset: int,
    pool: int,
    field: Field,
    o: IoOptions,
) -> bool {
    match field.field_type {
        FieldType::Long | FieldType::UnsignedLong => v == FieldValue::Int(
            spec_extract_long(spec_read_u32(bytes, offset, o.big_endian), field.mask, field.shift),
        ),
        FieldType::Float => v == FieldValue::Float(spec_read_u32(bytes, offset, o.big_endian)),
        FieldType::Short => v == FieldValue::Int(
            spec_extract_short(spec_read_u16(bytes, offset, o.big_endian), field.mask, field.shift),
        ),
        FieldType::Char => v == FieldValue::Int(
            spec_extract_char(bytes[offset], field.mask, field.shift),
        ),
        FieldType::String => v matches FieldValue::String(s) && s@ == spec_dec_chars(
            o.encoding,
            bytes.subrange(offset, offset + spec_first_nul(bytes, offset, 32)),
        ),
        FieldType::StringOffset => {
            let st = pool + spec_read_u32(bytes, offset, o.big_endian);
            v matches FieldValue::String(s) && s@ == spec_dec_chars(
                o.encoding,
                bytes.subrange(st, st + spec_pool_run(bytes, st)),
            )
        },
    }
}

/// `a + b`, clamped at the machine's top value (for error payloads whose
/// exact sum may not be representable).
fn sat_add(a: usize, b: usize) -> (r: usize)
    ensures
        r as int == if a + b <= usize::MAX {
            a + b
        } else {
            usize::MAX as int
        },
{
    if a <= usize::MAX - b {
        a + b
    } else {
        usize::MAX
    }
}

/// Read one field's value from a row record, applying the field's mask,
/// shift and sign extension, or following its pool offset for indirect text.
fn read_field_value(
    data: &[u8],
    offset: usize,
    string_table_offset: usize,
    field: &Field,
    options: &IoOptions,
) -> (r: core::result::Result<FieldValue, JMapError>)
    requires
        data@.len() <= 0x10000000,
    ensures
        r is Ok <==> spec_value_ok(
            data@,
            offset as int,
            string_table_offset as int,
            *field,
            *options,
        ),
        r matches Ok(v) ==> spec_value_matches(
            v,
            data@,
            offset as int,
            string_table_offset as int,
            *field,
            *options,
        ),
{
    let be = options.big_endian;
    match field.field_type {
        FieldType::Long | FieldType::UnsignedLong => {
            if offset > data.len() || data.len() - offset < 4 {
                return Err(JMapError::BufferTooSmall { expected: sat_add(offset, 4), got: data.len() });
            }
            if field.shift >= 32 {
                return Err(JMapError::InvalidHeader);
            }
            let raw = get_u32(data, offset, be);
            let bits = (raw & field.mask) >> field.shift;
            let signed = #[verifier::truncate] (bits as i32);
            proof {
                lemma_to_signed32(bits);
            }
            Ok(FieldValue::Int(signed))
        },
        FieldType::Float => {
            if offset > data.len() || data.len() - offset < 4 {
                return Err(JMapError::BufferTooSmall { expected: sat_add(offset, 4), got: data.len() });
            }
            let raw = get_u32(data, offset, be);
            Ok(FieldValue::Float(raw))
        },
        FieldType::Short => {
            if offset > data.len() || data.len() - offset < 2 {
                return Err(JMapError::BufferTooSmall { expected: sat_add(offset, 2), got: data.len() });
            }
            if field.shift >= 32 {
                return Err(JMapError::InvalidHeader);
            }
            let raw = get_u16(data, offset, be);
            let bits = ((raw as u32) & field.mask) >> field.shift;
            let ext: u32 = if bits & 0x8000 != 0 {
                bits | 0xFFFF0000
            } else {
                bits
            };
            let signed = #[verifier::truncate] (ext as i32);
            proof {
                lemma_to_signed32(ext);
            }
            Ok(FieldValue::Int(signed))
        },
        FieldType::Char => {
            if offset >= data.len() {
                return Err(JMapError::BufferTooSmall { expected: sat_add(offset, 1), got: data.len() });
            }
            if field.shift >= 32 {
                return Err(JMapError::InvalidHeader);
            }
            let raw = data[offset];
            let bits = ((raw as u32) & field.mask) >> field.shift;
            let ext: u32 = if bits & 0x80 != 0 {
                bits | 0xFFFFFF00
            } else {
                bits
            };
            let signed = #[verifier::truncate] (ext as i32);
            proof {
                lemma_to_signed32(ext);
            }
            Ok(FieldValue::Int(signed))
        },
        FieldType::String => {
            if offset > data.len() || data.len() - offset < 32 {
                return Err(JMapError::BufferTooSmall { expected: sat_add(offset, 32), got: data.len() });
            }
            let end = scan_nul(data, offset, 32);
            proof {
                lemma_first_nul(data@, offset as int, 32);
            }
            let slice = &data[offset..offset + end];
            let s = decode_text(slice, options.encoding)?;
            Ok(FieldValue::String(s))
        },
        FieldType::StringOffset => {
            if offset > data.len() || data.len() - offset < 4 {
                return Err(JMapError::BufferTooSmall { expected: sat_add(offset, 4), got: data.len() });
            }
            let str_offset = get_u32(data, offset, be);
            if string_table_offset > data.len() || str_offset as usize > data.len()
                - string_table_offset {
                return Err(
                    JMapError::BufferTooSmall {
                        expected: sat_add(string_table_offset, str_offset as usize),
                        got: data.len(),
                    },
                );
            }
            let st = string_table_offset + str_offset as usize;
            let m = scan_nul(data, st, data.len() - st);
            proof {
                lemma_first_nul(data@, st as int, data.len() - st);
            }
            let end: usize = if st + m == data.len() {
                0
            } else {
                m
            };
            let slice = &data[st..st + end];
            let s = decode_text(slice, options.encoding)?;
            Ok(FieldValue::String(s))
        },
    }
}

/// Truncating a word below `2^31` keeps its value; truncating a greater word
/// subtracts `2^32`: the two's-complement reading.
pub proof fn lemma_to_signed32(v: u32)
    ensures
        (v as i32) as int == spec_to_signed32(v) as int || v >= 0x80000000,
        v >= 0x80000000 ==> (#[verifier::truncate] (v as i32)) as int == spec_to_signed32(
            v,
        ) as int,
        v < 0x80000000 ==> (#[verifier::truncate] (v as i32)) as int == v as int,
{
    if v >= 0x80000000 {
        assert((#[verifier::truncate] (v as i32)) as int == v - 0x100000000) by (bit_vector)
            requires
                v >= 0x80000000,
        ;
    }
}

/// Whether `f` is the field a 12-byte directory record at `off` denotes:
/// hash, mask, row offset, shift, type code, and the type's default value.
pub open spec fn spec_field_matches_record(f: Field, bytes: Seq<u8>, off: int, be: bool) -> bool {
    &&& f.hash == spec_read_u32(bytes, off, be)
    &&& f.mask == spec_read_u32(bytes, off + 4, be)
    &&& f.offset == spec_read_u16(bytes, off + 8, be)
    &&& f.shift == bytes[off + 10]
    &&& Some(f.field_type) == spec_from_raw(bytes[off + 11])
    &&& spec_is_default_for(f.default, f.field_type)
}

/// Read a field definition record from the directory region.
fn read_field(data: &[u8], offset: usize, big_endian: bool) -> (r: core::result::Result<
    Field,
    JMapError,
>)
    requires
        offset + 12 <= data.len(),
    ensures
        r is Ok <==> spec_from_raw(data@[offset + 11]) is Some,
        r matches Ok(f) ==> spec_field_matches_record(f, data@, offset as int, big_endian),
        r matches Err(e) ==> e == JMapError::InvalidFieldType(data@[offset + 11]),
{
    let hash = get_u32(data, offset, big_endian);
    let mask = get_u32(data, offset + 4, big_endian);
    let field_offset = get_u16(data, offset + 8, big_endian);
    let shift = data[offset + 10];
    let raw_type = data[offset + 11];
    let field_type = match FieldType::from_raw(raw_type) {
        Some(t) => t,
        None => {
            return Err(JMapError::InvalidFieldType(raw_type));
        },
    };
    Ok(
        Field {
            hash,
            mask,
            offset: field_offset,
            field_type,
            shift,
            default: FieldValue::default_for(field_type),
        },
    )
}

/// Insert a decoded field into the directory: replace the field already
/// carrying the hash in place, or append.
fn insert_field(fields: &mut Vec<Field>, f: Field)
    ensures
        final(fields)@ == crate::jmap::spec_field_set(old(fields)@, f),
        crate::jmap::spec_field_hashes_unique(old(fields)@) ==> crate::jmap::spec_field_hashes_unique(final(fields)@),
{
    match crate::jmap::find_field_index(fields, f.hash) {
        Some(i) => {
            proof {
                if crate::jmap::spec_field_hashes_unique(fields@) {
                    crate::jmap::lemma_field_set_unique(fields@, f);
                }
            }
            fields.set(i, f);
        },
        None => {
            proof {
                if crate::jmap::spec_field_hashes_unique(fields@) {
                    crate::jmap::lemma_field_set_unique(fields@, f);
                }
            }
            fields.push(f);
        },
    }
}

/// Whether the directory records of a buffer carry pairwise distinct hashes.
pub open spec fn spec_records_unique(bytes: Seq<u8>, nf: int, be: bool) -> bool {
    forall|k1: int, k2: int|
        0 <= k1 < k2 < nf ==> #[trigger] spec_read_u32(bytes, 16 + 12 * k1, be)
            != #[trigger] spec_read_u32(bytes, 16 + 12 * k2, be)
}

/// Whether the value window a directory record asks a row decode to read is
/// in bounds and decodable (the record's own offset, shift and type applied
/// at the row's position).
pub open spec fn spec_record_value_ok(
    bytes: Seq<u8>,
    row_off: int,
    pool: int,
    rec: int,
    o: IoOptions,
) -> bool {
    let f_off = row_off + spec_read_u16(bytes, rec + 8, o.big_endian);
    let shift = bytes[rec + 10];
    match spec_from_raw(bytes[rec + 11]) {
        Some(t) => match t {
            FieldType::Long | FieldType::UnsignedLong => f_off + 4 <= bytes.len() && shift < 32,
            FieldType::Float => f_off + 4 <= bytes.len(),
            FieldType::Short => f_off + 2 <= bytes.len() && shift < 32,
            FieldType::Char => f_off + 1 <= bytes.len() && shift < 32,
            FieldType::String => f_off + 32 <= bytes.len() && spec_dec_ok(
                o.encoding,
                bytes.subrange(f_off, f_off + spec_first_nul(bytes, f_off, 32)),
            ),
            FieldType::StringOffset => f_off + 4 <= bytes.len() && {
                let st = pool + spec_read_u32(bytes, f_off, o.big_endian);
                st <= bytes.len() && spec_dec_ok(
                    o.encoding,
                    bytes.subrange(st, st + spec_pool_run(bytes, st)),
                )
            },
        },
        None => false,
    }
}

/// Whether a buffer decodes without error: a full header, the directory in
/// bounds with valid type codes, the row region start computable on this
/// machine, and every row's value windows in bounds and decodable.
pub open spec fn spec_decode_ok(bytes: Seq<u8>, o: IoOptions) -> bool {
    &&& bytes.len() >= 16
    &&& {
        let ne = spec_read_u32(bytes, 0, o.big_endian) as int;
        let nf = spec_read_u32(bytes, 4, o.big_endian) as int;
        let od = spec_read_u32(bytes, 8, o.big_endian) as int;
        let es = spec_read_u32(bytes, 12, o.big_endian) as int;
        let pool = od + ne * es;
        &&& 16 + 12 * nf <= bytes.len()
        &&& pool <= usize::MAX
        &&& (forall|k: int| 0 <= k < nf ==> spec_from_raw(#[trigger] bytes[16 + 12 * k + 11]) is Some)
        &&& (forall|j: int, k: int|
            0 <= j < ne && 0 <= k < nf ==> #[trigger] spec_record_value_ok(
                bytes,
                od + j * es,
                pool,
                16 + 12 * k,
                o,
            ))
    }
}

/// A field decoded from a record reads exactly the windows the record
/// itself describes.
proof fn lemma_value_ok_record(
    bytes: Seq<u8>,
    row_off: int,
    pool: int,
    f: Field,
    rec: int,
    o: IoOptions,
)
    requires
        spec_field_matches_record(f, bytes, rec, o.big_endian),
    ensures
        spec_record_value_ok(bytes, row_off, pool, rec, o) == spec_value_ok(
            bytes,
            row_off + f.offset,
            pool,
            f,
            o,
        ),
{
}

/// Read a table container from a byte buffer: the four header words, the
/// field directory, and one entry per row record, every declared field
/// present in every entry.
///
/// A buffer shorter than a header fails with the buffer-too-small error
/// naming sixteen expected bytes; an unrecognized field type code fails the
/// whole decode; a row region whose start cannot be computed on this machine
/// is a nonsensical header. A field held by no row still decodes, from
/// whatever the row window holds, masked, shifted and sign-extended per the
/// field.
pub fn from_buffer<H: HashTable>(hash_table: H, data: &[u8], options: &IoOptions) -> (r:
    core::result::Result<JMapInfo<H>, JMapError>)
    requires
        data@.len() <= 0x10000000,
    ensures
        data@.len() < 16 ==> (r matches Err(e) && e == (JMapError::BufferTooSmall {
            expected: 16,
            got: data@.len() as usize,
        })),
        spec_records_unique(
            data@,
            spec_read_u32(data@, 4, options.big_endian) as int,
            options.big_endian,
        ) ==> ((r is Ok) <==> spec_decode_ok(data@, *options)),
        r matches Ok(jm) ==> {
            let ne = spec_read_u32(data@, 0, options.big_endian) as int;
            let nf = spec_read_u32(data@, 4, options.big_endian) as int;
            let od = spec_read_u32(data@, 8, options.big_endian) as int;
            let es = spec_read_u32(data@, 12, options.big_endian) as int;
            let pool = od + ne * es;
            &&& jm.wf()
            &&& jm.spec_table() == hash_table
            &&& jm.spec_entry_size() == spec_read_u32(data@, 12, options.big_endian)
            &&& jm.spec_entries().len() == ne
            &&& (spec_records_unique(data@, nf, options.big_endian) ==> {
                &&& jm.spec_fields().len() == nf
                &&& (forall|k: int|
                    0 <= k < nf ==> spec_field_matches_record(
                        #[trigger] jm.spec_fields()[k],
                        data@,
                        16 + 12 * k,
                        options.big_endian,
                    ))
                &&& (forall|j: int|
                    0 <= j < ne ==> (#[trigger] jm.spec_entries()[j]).spec_pairs().len() == nf)
                &&& (forall|j: int, k: int|
                    0 <= j < ne && 0 <= k < nf ==> {
                        let p = (#[trigger] jm.spec_entries()[j].spec_pairs()[k]);
                        &&& p.0 == jm.spec_fields()[k].hash
                        &&& spec_value_matches(
                            p.1,
                            data@,
                            od + j * es + jm.spec_fields()[k].offset,
                            pool,
                            jm.spec_fields()[k],
                            *options,
                        )
                    })
            })
        },
{
    let be = options.big_endian;
    if data.len() < 16 {
        return Err(JMapError::BufferTooSmall { expected: 16, got: data.len() });
    }
    let num_entries = get_u32(data, 0, be);
    let num_fields = get_u32(data, 4, be);
    let off_data = get_u32(data, 8, be);
    let entry_size = get_u32(data, 12, be);
    let ghost unique = spec_records_unique(data@, num_fields as int, be);

    // The string pool starts right after the row records; a start that does
    // not fit the machine marks a nonsensical header.
    let rows_bytes = match (num_entries as usize).checked_mul(entry_size as usize) {
        Some(v) => v,
        None => {
            proof {
                assert((num_entries as int) * (entry_size as int) > usize::MAX);
            }
            return Err(JMapError::InvalidHeader);
        },
    };
    proof {
        assert(rows_bytes == (num_entries as int) * (entry_size as int));
    }
    let off_strings = match (off_data as usize).checked_add(rows_bytes) {
        Some(v) => v,
        None => {
            return Err(JMapError::InvalidHeader);
        },
    };

    // Directory bounds.
    let avail64: u64 = data.len() as u64 - 16;
    if (num_fields as u64) * 12 > avail64 {
        let expected: usize = if (num_fields as u64) * 12 <= usize::MAX as u64 - 16 {
            16 + 12 * (num_fields as usize)
        } else {
            usize::MAX
        };
        return Err(JMapError::BufferTooSmall { expected, got: data.len() });
    }

    // Read the field directory; a repeated hash replaces the earlier record
    // in place.
    let mut fields: Vec<Field> = Vec::new();
    let mut k: usize = 0;
    while k < num_fields as usize
        invariant
            k <= num_fields as usize,
            data@.len() <= 0x10000000,
            16 + 12 * (num_fields as int) <= data@.len(),
            be == options.big_endian,
            num_fields == spec_read_u32(data@, 4, be),
            unique == spec_records_unique(data@, num_fields as int, be),
            crate::jmap::spec_field_hashes_unique(fields@),
            unique ==> fields@.len() == k,
            unique ==> (forall|k2: int|
                0 <= k2 < k ==> spec_field_matches_record(
                    #[trigger] fields@[k2],
                    data@,
                    16 + 12 * k2,
                    be,
                )),
        decreases num_fields as usize - k,
    {
        let f = match read_field(data, 16 + 12 * k, be) {
            Ok(f) => f,
            Err(e) => {
                proof {
                    if unique && spec_decode_ok(data@, *options) {
                        assert(spec_from_raw(data@[16 + 12 * (k as int) + 11]) is Some);
                    }
                }
                return Err(e);
            },
        };
        let ghost pre = fields@;
        insert_field(&mut fields, f);
        proof {
            if unique {
                assert forall|j: int| 0 <= j < pre.len() implies (#[trigger] pre[j]).hash
                    != f.hash by {
                    assert(spec_field_matches_record(pre[j], data@, 16 + 12 * j, be));
                    assert(spec_read_u32(data@, 16 + 12 * j, be) != spec_read_u32(
                        data@,
                        16 + 12 * (k as int),
                        be,
                    ));
                }
                crate::jmap::lemma_field_no_match(pre, f.hash);
                assert(fields@ =~= pre.push(f));
            }
        }
        k = k + 1;
    }

    // Read the row records.
    let mut entries: Vec<Entry> = Vec::new();
    let mut j: usize = 0;
    while j < num_entries as usize
        invariant
            j <= num_entries as usize,
            data@.len() <= 0x10000000,
            16 + 12 * (num_fields as int) <= data@.len(),
            be == options.big_endian,
            num_entries == spec_read_u32(data@, 0, be),
            num_fields == spec_read_u32(data@, 4, be),
            off_data == spec_read_u32(data@, 8, be),
            entry_size == spec_read_u32(data@, 12, be),
            off_strings == off_data as int + num_entries as int * entry_size as int,
            unique == spec_records_unique(data@, num_fields as int, be),
            crate::jmap::spec_field_hashes_unique(fields@),
            unique ==> fields@.len() == num_fields,
            unique ==> (forall|k2: int|
                0 <= k2 < fields@.len() ==> spec_field_matches_record(
                    #[trigger] fields@[k2],
                    data@,
                    16 + 12 * k2,
                    be,
                )),
            entries@.len() == j,
            forall|i: int| 0 <= i < j ==> (#[trigger] entries@[i]).wf(),
            forall|i: int|
                0 <= i < j ==> (#[trigger] entries@[i]).spec_pairs().len() == fields@.len(),
            forall|i: int, k2: int|
                0 <= i < j && 0 <= k2 < fields@.len() ==> {
                    let p = (#[trigger] entries@[i].spec_pairs()[k2]);
                    &&& p.0 == fields@[k2].hash
                    &&& spec_value_matches(
                        p.1,
                        data@,
                        off_data as int + i * entry_size as int + fields@[k2].offset,
                        off_strings as int,
                        fields@[k2],
                        *options,
                    )
                },
            unique ==> (forall|i: int, k2: int|
                0 <= i < j && 0 <= k2 < num_fields ==> #[trigger] spec_record_value_ok(
                    data@,
                    off_data as int + i * entry_size as int,
                    off_strings as int,
                    16 + 12 * k2,
                    *options,
                )),
        decreases num_entries as usize - j,
    {
        proof {
            assert(j as int * entry_size as int <= num_entries as int * entry_size as int
                && (j + 1) as int * entry_size as int <= num_entries as int * entry_size as int)
                by (nonlinear_arith)
                requires
                    0 <= j < num_entries,
                    0 <= entry_size,
            ;
        }
        let row_off = off_data as usize + j * (entry_size as usize);
        let mut entry = Entry::with_capacity(fields.len());
        let mut k2: usize = 0;
        while k2 < fields.len()
            invariant
                k2 <= fields@.len(),
                data@.len() <= 0x10000000,
                16 + 12 * (num_fields as int) <= data@.len(),
                be == options.big_endian,
                num_entries == spec_read_u32(data@, 0, be),
                num_fields == spec_read_u32(data@, 4, be),
                off_data == spec_read_u32(data@, 8, be),
                entry_size == spec_read_u32(data@, 12, be),
                off_strings == off_data as int + num_entries as int * entry_size as int,
                j < num_entries,
                row_off == off_data as int + j as int * entry_size as int,
                unique == spec_records_unique(data@, num_fields as int, be),
                crate::jmap::spec_field_hashes_unique(fields@),
                unique ==> fields@.len() == num_fields,
                unique ==> (forall|k3: int|
                    0 <= k3 < fields@.len() ==> spec_field_matches_record(
                        #[trigger] fields@[k3],
                        data@,
                        16 + 12 * k3,
                        be,
                    )),
                entry.wf(),
                entry.spec_pairs().len() == k2,
                forall|k3: int|
                    0 <= k3 < k2 ==> {
                        let p = (#[trigger] entry.spec_pairs()[k3]);
                        &&& p.0 == fields@[k3].hash
                        &&& spec_value_matches(
                            p.1,
                            data@,
                            row_off + fields@[k3].offset,
                            off_strings as int,
                            fields@[k3],
                            *options,
                        )
                    },
                unique ==> (forall|k3: int|
                    0 <= k3 < k2 ==> #[trigger] spec_record_value_ok(
                        data@,
                        row_off as int,
                        off_strings as int,
                        16 + 12 * k3,
                        *options,
                    )),
            decreases fields@.len() - k2,
        {
            let field = &fields[k2];
            proof {
                if unique {
                    lemma_value_ok_record(
                        data@,
                        row_off as int,
                        off_strings as int,
                        fields@[k2 as int],
                        16 + 12 * k2 as int,
                        *options,
                    );
                }
            }
            let val_off = match row_off.checked_add(field.offset as usize) {
                Some(v) => v,
                None => {
                    proof {
                        if unique {
                            assert(!spec_value_ok(
                                data@,
                                row_off + fields@[k2 as int].offset,
                                off_strings as int,
                                fields@[k2 as int],
                                *options,
                            ));
                            if spec_decode_ok(data@, *options) {
                                assert(spec_record_value_ok(
                                    data@,
                                    off_data as int + j as int * entry_size as int,
                                    off_strings as int,
                                    16 + 12 * (k2 as int),
                                    *options,
                                ));
                            }
                        }
                    }
                    return Err(
                        JMapError::BufferTooSmall { expected: usize::MAX, got: data.len() },
                    );
                },
            };
            let value = match read_field_value(data, val_off, off_strings, field, options) {
                Ok(v) => v,
                Err(e) => {
                    proof {
                        if unique && spec_decode_ok(data@, *options) {
                            assert(spec_record_value_ok(
                                data@,
                                off_data as int + j as int * entry_size as int,
                                off_strings as int,
                                16 + 12 * (k2 as int),
                                *options,
                            ));
                        }
                    }
                    return Err(e);
                },
            };
            let ghost pre_pairs = entry.spec_pairs();
            proof {
                assert forall|m: int| 0 <= m < pre_pairs.len() implies (#[trigger] pre_pairs[m]).0
                    != field.hash by {
                    assert(pre_pairs[m].0 == fields@[m].hash);
                }
                crate::entry::lemma_no_match(pre_pairs, field.hash);
            }
            entry.set_by_hash(field.hash, value);
            proof {
                assert(entry.spec_pairs() =~= pre_pairs.push((fields@[k2 as int].hash, value)));
            }
            k2 = k2 + 1;
        }
        entries.push(entry);
        j = j + 1;
    }

    proof {
        if unique {
            assert forall|kk: int|
                0 <= kk < num_fields implies spec_from_raw(
                #[trigger] data@[16 + 12 * kk + 11],
            ) is Some by {
                assert(spec_field_matches_record(fields@[kk], data@, 16 + 12 * kk, be));
            }
            assert(spec_decode_ok(data@, *options));
        }
    }
    let jm = JMapInfo::from_parts(hash_table, fields, entries, entry_size);
    Ok(jm)
}

/// The pool offset the dedup list records for a text: the first entry with
/// that text, scanned in insertion order.
pub open spec fn spec_dedup_lookup(d: Seq<(String, u32)>, t: Seq<char>) -> Option<u32>
    decreases d.len(),
{
    if d.len() == 0 {
        None
    } else if d[0].0@ == t {
        Some(d[0].1)
    } else {
        spec_dedup_lookup(d.drop_first(), t)
    }
}

/// The dedup list is faithful to the pool: every recorded text sits at its
/// recorded offset, encoded and null-terminated, texts are pairwise distinct,
/// and offsets strictly increase in insertion order.
pub open spec fn spec_dedup_ok(d: Seq<(String, u32)>, pool: Seq<u8>, enc: Encoding) -> bool {
    &&& (forall|m: int|
        0 <= m < d.len() ==> {
            let eb = spec_enc_bytes(enc, (#[trigger] d[m]).0@);
            &&& d[m].1 + eb.len() + 1 <= pool.len()
            &&& pool.subrange(d[m].1 as int, d[m].1 + eb.len()) == eb
            &&& pool[d[m].1 + eb.len()] == 0
        })
    &&& (forall|m1: int, m2: int|
        0 <= m1 < m2 < d.len() ==> (#[trigger] d[m1]).0@ != (#[trigger] d[m2]).0@ && d[m1].1
            < d[m2].1)
}

/// A list whose entries all miss `t` records nothing for `t`.
proof fn lemma_dedup_no_match(d: Seq<(String, u32)>, t: Seq<char>)
    requires
        forall|m: int| 0 <= m < d.len() ==> (#[trigger] d[m]).0@ != t,
    ensures
        spec_dedup_lookup(d, t) is None,
    decreases d.len(),
{
    if d.len() > 0 {
        lemma_dedup_no_match(d.drop_first(), t);
    }
}

/// If the first `m` entries miss `t` and entry `m` carries it, the lookup
/// lands exactly there.
proof fn lemma_dedup_first_match(d: Seq<(String, u32)>, t: Seq<char>, m: int)
    requires
        0 <= m < d.len(),
        d[m].0@ == t,
        forall|m2: int| 0 <= m2 < m ==> (#[trigger] d[m2]).0@ != t,
    ensures
        spec_dedup_lookup(d, t) == Some(d[m].1),
    decreases m,
{
    if m > 0 {
        lemma_dedup_first_match(d.drop_first(), t, m - 1);
    }
}

/// A lookup that succeeds keeps its answer when the list grows at the end.
pub proof fn lemma_dedup_lookup_stable(d1: Seq<(String, u32)>, d2: Seq<(String, u32)>, t: Seq<
    char,
>)
    requires
        d1.len() <= d2.len(),
        d2.subrange(0, d1.len() as int) == d1,
        spec_dedup_lookup(d1, t) is Some,
    ensures
        spec_dedup_lookup(d2, t) == spec_dedup_lookup(d1, t),
    decreases d1.len(),
{
    if d1.len() > 0 {
        assert(d2[0] == d1[0]);
        if d1[0].0@ != t {
            assert(d2.drop_first().subrange(0, d1.drop_first().len() as int) =~= d1.drop_first());
            lemma_dedup_lookup_stable(d1.drop_first(), d2.drop_first(), t);
        }
    }
}

/// What a successful lookup names: an entry of the list carrying the text
/// and the returned offset.
pub proof fn lemma_dedup_lookup_names(d: Seq<(String, u32)>, t: Seq<char>)
    requires
        spec_dedup_lookup(d, t) is Some,
    ensures
        exists|m: int|
            0 <= m < d.len() && (#[trigger] d[m]).0@ == t && Some(d[m].1) == spec_dedup_lookup(
                d,
                t,
            ),
    decreases d.len(),
{
    if d.len() > 0 && d[0].0@ != t {
        lemma_dedup_lookup_names(d.drop_first(), t);
        let m = choose|m: int|
            0 <= m < d.drop_first().len() && (#[trigger] d.drop_first()[m]).0@ == t && Some(
                d.drop_first()[m].1,
            ) == spec_dedup_lookup(d.drop_first(), t);
        assert(d[m + 1] == d.drop_first()[m]);
    }
}

/// Equal texts read equal offsets from the dedup list, and distinct texts
/// read distinct offsets.
pub proof fn lemma_dedup_lookup_injective(
    d: Seq<(String, u32)>,
    pool: Seq<u8>,
    enc: Encoding,
    t1: Seq<char>,
    t2: Seq<char>,
)
    requires
        spec_dedup_ok(d, pool, enc),
        spec_dedup_lookup(d, t1) is Some,
        spec_dedup_lookup(d, t2) is Some,
    ensures
        (spec_dedup_lookup(d, t1) == spec_dedup_lookup(d, t2)) == (t1 == t2),
{
    lemma_dedup_lookup_names(d, t1);
    lemma_dedup_lookup_names(d, t2);
    let m1 = choose|m: int|
        0 <= m < d.len() && (#[trigger] d[m]).0@ == t1 && Some(d[m].1) == spec_dedup_lookup(d, t1);
    let m2 = choose|m: int|
        0 <= m < d.len() && (#[trigger] d[m]).0@ == t2 && Some(d[m].1) == spec_dedup_lookup(d, t2);
    if t1 != t2 {
        assert(m1 != m2);
        assert(d[m1].1 != d[m2].1);
    }
}

/// Record a text in the string pool: reuse the offset this encode pass
/// already gave the exact same text, or append its encoding plus a null
/// terminator at the pool's end. Fails only when the pool has outgrown the
/// four-byte offsets the format stores.
fn pool_insert(
    pool: &mut Vec<u8>,
    dedup: &mut Vec<(String, u32)>,
    s: &str,
    enc: Encoding,
) -> (r: core::result::Result<u32, JMapError>)
    requires
        spec_dedup_ok(old(dedup)@, old(pool)@, enc),
        s.spec_bytes().len() <= 0x8000000,
    ensures
        spec_dedup_ok(final(dedup)@, final(pool)@, enc),
        old(pool)@.len() <= final(pool)@.len(),
        final(pool)@.subrange(0, old(pool)@.len() as int) == old(pool)@,
        final(dedup)@.len() >= old(dedup)@.len(),
        final(dedup)@.subrange(0, old(dedup)@.len() as int) == old(dedup)@,
        final(pool)@.len() <= old(pool)@.len() + spec_enc_bytes(enc, s@).len() + 1,
        r matches Ok(so) ==> spec_dedup_lookup(final(dedup)@, s@) == Some(so),
        r is Ok ==> (spec_dedup_lookup(old(dedup)@, s@) is Some ==> final(pool)@ == old(pool)@
            && final(dedup)@ == old(dedup)@),
        r is Err ==> (r matches Err(JMapError::EncodingError(_)) && final(pool)@ == old(pool)@
            && final(dedup)@ == old(dedup)@),
        spec_dedup_lookup(old(dedup)@, s@) is Some ==> r is Ok,
        (spec_dedup_lookup(old(dedup)@, s@) is None && old(pool)@.len() + spec_enc_bytes(
            enc,
            s@,
        ).len() + 1 <= 0xFFFFFFFF) ==> r is Ok,
{
    let mut m: usize = 0;
    while m < dedup.len()
        invariant
            m <= dedup@.len(),
            pool@ == old(pool)@,
            dedup@ == old(dedup)@,
            spec_dedup_ok(dedup@, pool@, enc),
            forall|m2: int| 0 <= m2 < m ==> (#[trigger] dedup@[m2]).0@ != s@,
        decreases dedup@.len() - m,
    {
        if crate::text::str_eq(dedup[m].0.as_str(), s) {
            proof {
                lemma_dedup_first_match(dedup@, s@, m as int);
                assert(dedup@.subrange(0, dedup@.len() as int) =~= dedup@);
                assert(pool@.subrange(0, pool@.len() as int) =~= pool@);
            }
            let so = dedup[m].1;
            return Ok(so);
        }
        m = m + 1;
    }
    proof {
        lemma_dedup_no_match(dedup@, s@);
    }
    // A new text: its offset is the pool's current end.
    if pool.len() > 0xFFFFFFFFusize - 1 {
        proof {
            assert(pool@.subrange(0, pool@.len() as int) =~= pool@);
            assert(dedup@.subrange(0, dedup@.len() as int) =~= dedup@);
        }
        return Err(
            JMapError::EncodingError(String::from_str("string pool exceeds the format's offsets")),
        );
    }
    let so = pool.len() as u32;
    let eb = encode_text(s, enc);
    if eb.len() as u64 > 0xFFFFFFFFu64 - 1 - so as u64 {
        proof {
            assert(pool@.subrange(0, pool@.len() as int) =~= pool@);
            assert(dedup@.subrange(0, dedup@.len() as int) =~= dedup@);
        }
        return Err(
            JMapError::EncodingError(String::from_str("string pool exceeds the format's offsets")),
        );
    }
    let ghost pre_pool = pool@;
    let ghost pre_dedup = dedup@;
    pool.extend_from_slice(eb.as_slice());
    pool.push(0);
    dedup.push((s.to_owned(), so));
    proof {
        let eview = spec_enc_bytes(enc, s@);
        assert(pool@ =~= pre_pool + eview + seq![0u8]);
        assert(pool@.subrange(0, pre_pool.len() as int) =~= pre_pool);
        assert(dedup@.subrange(0, pre_dedup.len() as int) =~= pre_dedup);
        assert(pool@.subrange(so as int, so + eview.len()) =~= eview);
        assert(pool@[so + eview.len()] == 0);
        assert forall|m2: int| 0 <= m2 < dedup@.len() implies {
            let eb2 = spec_enc_bytes(enc, (#[trigger] dedup@[m2]).0@);
            &&& dedup@[m2].1 + eb2.len() + 1 <= pool@.len()
            &&& pool@.subrange(dedup@[m2].1 as int, dedup@[m2].1 + eb2.len()) == eb2
            &&& pool@[dedup@[m2].1 + eb2.len()] == 0
        } by {
            if m2 < pre_dedup.len() {
                let eb2 = spec_enc_bytes(enc, dedup@[m2].0@);
                assert(pre_pool.subrange(dedup@[m2].1 as int, dedup@[m2].1 + eb2.len()) == eb2);
                assert(pool@.subrange(dedup@[m2].1 as int, dedup@[m2].1 + eb2.len()) =~= pre_pool.subrange(
                    dedup@[m2].1 as int,
                    dedup@[m2].1 + eb2.len(),
                ));
                assert(pool@[dedup@[m2].1 + eb2.len()] == pre_pool[dedup@[m2].1 + eb2.len()]);
            } else {
                assert(dedup@[m2].0@ == s@ && dedup@[m2].1 == so);
            }
        }
        assert forall|m1: int, m2: int| 0 <= m1 < m2 < dedup@.len() implies (
        #[trigger] dedup@[m1]).0@ != (#[trigger] dedup@[m2]).0@ && dedup@[m1].1 < dedup@[m2].1 by {
            if m2 == pre_dedup.len() {
                assert(dedup@[m1].0@ != s@);
                assert(dedup@[m1].1 + spec_enc_bytes(enc, dedup@[m1].0@).len() + 1
                    <= pre_pool.len());
            }
        }
        lemma_dedup_first_match(dedup@, s@, pre_dedup.len() as int);
    }
    Ok(so)
}

/// A signed word truncated to unsigned is its two's-complement bit pattern.
proof fn lemma_to_unsigned32(v: i32)
    ensures
        (#[verifier::truncate] (v as u32)) == spec_to_unsigned32(v),
{
    if v < 0 {
        assert((#[verifier::truncate] (v as u32)) as int == v + 0x100000000) by (bit_vector)
            requires
                v < 0,
        ;
    }
}

/// Whether an encoder can place `v` into a field of `f`'s type at all:
/// the variant backs the type and integer fields carry a shift below the
/// word width.
pub open spec fn spec_write_shape_ok(v: FieldValue, f: Field) -> bool {
    &&& spec_compatible(v, f.field_type)
    &&& (match f.field_type {
        FieldType::Long | FieldType::UnsignedLong | FieldType::Short | FieldType::Char => f.shift
            < 32,
        _ => true,
    })
}

/// What a completed value write leaves in the field's byte window.
pub open spec fn spec_written_window(
    pre: Seq<u8>,
    post: Seq<u8>,
    offset: int,
    v: FieldValue,
    f: Field,
    o: IoOptions,
    dedup: Seq<(String, u32)>,
) -> bool {
    match f.field_type {
        FieldType::Long | FieldType::UnsignedLong => v matches FieldValue::Int(n)
            && post.subrange(offset, offset + 4) == u32_bytes(
            spec_combine32(spec_read_u32(pre, offset, o.big_endian), f.mask, f.shift, n),
            o.big_endian,
        ),
        FieldType::Float => v matches FieldValue::Float(bits) && post.subrange(offset, offset + 4)
            == u32_bytes(bits, o.big_endian),
        FieldType::Short => v matches FieldValue::Int(n) && post.subrange(offset, offset + 2)
            == u16_bytes(
            spec_combine16(spec_read_u16(pre, offset, o.big_endian), f.mask, f.shift, n),
            o.big_endian,
        ),
        FieldType::Char => v matches FieldValue::Int(n) && post[offset] == spec_combine8(
            pre[offset],
            f.mask,
            f.shift,
            n,
        ),
        FieldType::String => v matches FieldValue::String(s) && {
            let eb = spec_enc_bytes(o.encoding, s@);
            let l: int = if eb.len() < 32 {
                eb.len() as int
            } else {
                32
            };
            &&& post.subrange(offset, offset + l) == eb.take(l)
            &&& (forall|i: int| offset + l <= i < offset + 32 ==> post[i] == pre[i])
        },
        FieldType::StringOffset => v matches FieldValue::String(s) && {
            let so = spec_dedup_lookup(dedup, s@);
            &&& so is Some
            &&& post.subrange(offset, offset + 4) == u32_bytes(so.unwrap(), o.big_endian)
        },
    }
}

/// Write one value into its field's byte window: read-modify-write for the
/// integer types (bits outside the field's mask survive), a direct word for
/// float, a truncated inline copy for fixed text, and a pool offset for
/// indirect text.
fn write_field_value(
    buf: &mut Vec<u8>,
    offset: usize,
    value: &FieldValue,
    field: &Field,
    pool: &mut Vec<u8>,
    dedup: &mut Vec<(String, u32)>,
    options: &IoOptions,
) -> (r: core::result::Result<(), JMapError>)
    requires
        offset + spec_size(field.field_type) <= old(buf).len(),
        spec_dedup_ok(old(dedup)@, old(pool)@, options.encoding),
    ensures
        final(buf)@.len() == old(buf)@.len(),
        forall|i: int|
            0 <= i < old(buf)@.len() && !(offset <= i < offset + spec_size(field.field_type))
                ==> final(buf)@[i] == old(buf)@[i],
        spec_dedup_ok(final(dedup)@, final(pool)@, options.encoding),
        old(pool)@.len() <= final(pool)@.len(),
        final(pool)@.subrange(0, old(pool)@.len() as int) == old(pool)@,
        final(dedup)@.len() >= old(dedup)@.len(),
        final(dedup)@.subrange(0, old(dedup)@.len() as int) == old(dedup)@,
        field.field_type != FieldType::StringOffset ==> (final(pool)@ == old(pool)@
            && final(dedup)@ == old(dedup)@),
        final(pool)@.len() <= old(pool)@.len() + (match (field.field_type, *value) {
            (FieldType::StringOffset, FieldValue::String(s)) => spec_enc_bytes(
                options.encoding,
                s@,
            ).len() as int + 1,
            _ => 0,
        }),
        r matches Err(JMapError::TypeMismatch { .. }) ==> !spec_compatible(
            *value,
            field.field_type,
        ),
        !spec_compatible(*value, field.field_type) ==> (r matches Err(
            JMapError::TypeMismatch { .. },
        ) && final(buf)@ == old(buf)@ && final(pool)@ == old(pool)@
            && final(dedup)@ == old(dedup)@),
        r is Ok ==> spec_write_shape_ok(*value, *field),
        r matches Ok(u) ==> spec_written_window(
            old(buf)@,
            final(buf)@,
            offset as int,
            *value,
            *field,
            *options,
            final(dedup)@,
        ),
        spec_write_shape_ok(*value, *field) && (match (field.field_type, *value) {
            (FieldType::String, FieldValue::String(s)) => encode_utf8(s@).len() <= 0x8000000,
            (FieldType::StringOffset, FieldValue::String(s)) => encode_utf8(s@).len() <= 0x8000000
                && (spec_dedup_lookup(old(dedup)@, s@) is Some || old(pool)@.len()
                + spec_enc_bytes(options.encoding, s@).len() + 1 <= 0xFFFFFFFF),
            _ => true,
        }) ==> r is Ok,
{
    let be = options.big_endian;
    match (field.field_type, value) {
        (FieldType::Long, FieldValue::Int(v)) | (FieldType::UnsignedLong, FieldValue::Int(v)) => {
            if field.shift >= 32 {
                return Err(JMapError::InvalidHeader);
            }
            let existing = get_u32(buf.as_slice(), offset, be);
            let unsigned = #[verifier::truncate] ((*v) as u32);
            proof {
                lemma_to_unsigned32(*v);
            }
            let word = (existing & !field.mask) | ((unsigned << field.shift) & field.mask);
            put_u32(buf, offset, word, be);
            Ok(())
        },
        (FieldType::Float, FieldValue::Float(bits)) => {
            put_u32(buf, offset, *bits, be);
            Ok(())
        },
        (FieldType::Short, FieldValue::Int(v)) => {
            if field.shift >= 32 {
                return Err(JMapError::InvalidHeader);
            }
            let existing = get_u16(buf.as_slice(), offset, be);
            let unsigned = #[verifier::truncate] ((*v) as u32);
            proof {
                lemma_to_unsigned32(*v);
            }
            let word32 = ((existing as u32) & !field.mask) | ((unsigned << field.shift)
                & field.mask);
            let word = #[verifier::truncate] (word32 as u16);
            assert(word == (word32 & 0xFFFF) as u16) by (bit_vector)
                requires
                    word == #[verifier::truncate] (word32 as u16),
            ;
            put_u16(buf, offset, word, be);
            Ok(())
        },
        (FieldType::Char, FieldValue::Int(v)) => {
            if field.shift >= 32 {
                return Err(JMapError::InvalidHeader);
            }
            let existing = buf[offset];
            let unsigned = #[verifier::truncate] ((*v) as u32);
            proof {
                lemma_to_unsigned32(*v);
            }
            let word32 = ((existing as u32) & !field.mask) | ((unsigned << field.shift)
                & field.mask);
            let word = #[verifier::truncate] (word32 as u8);
            assert(word == (word32 & 0xFF) as u8) by (bit_vector)
                requires
                    word == #[verifier::truncate] (word32 as u8),
            ;
            buf.set(offset, word);
            Ok(())
        },
        (FieldType::String, FieldValue::String(s)) => {
            if str_len_u64_of(s.as_str()) > 0x8000000u64 {
                return Err(
                    JMapError::EncodingError(
                        String::from_str("text too long for the format's windows"),
                    ),
                );
            }
            let eb = encode_text(s.as_str(), options.encoding);
            let l: usize = if eb.len() < 32 {
                eb.len()
            } else {
                32
            };
            let mut i: usize = 0;
            while i < l
                invariant
                    i <= l,
                    l <= 32,
                    l <= eb@.len(),
                    offset + 32 <= buf.len(),
                    buf@.len() == old(buf)@.len(),
                    forall|i2: int|
                        0 <= i2 < old(buf)@.len() && !(offset <= i2 < offset + i) ==> buf@[i2]
                            == old(buf)@[i2],
                    forall|i2: int| 0 <= i2 < i ==> buf@[offset + i2] == eb@[i2],
                decreases l - i,
            {
                let b = eb[i];
                buf.set(offset + i, b);
                i = i + 1;
            }
            proof {
                assert(buf@.subrange(offset as int, offset + l) =~= eb@.take(l as int));
            }
            Ok(())
        },
        (FieldType::StringOffset, FieldValue::String(s)) => {
            if str_len_u64_of(s.as_str()) > 0x8000000u64 {
                return Err(
                    JMapError::EncodingError(
                        String::from_str("text too long for the format's windows"),
                    ),
                );
            }
            let so = pool_insert(pool, dedup, s.as_str(), options.encoding)?;
            put_u32(buf, offset, so, be);
            Ok(())
        },
        _ => {
            Err(
                JMapError::TypeMismatch {
                    expected: field.field_type.csv_name(),
                    got: value.variant_name(),
                },
            )
        },
    }
}

/// The byte length of a string's own UTF-8 form, as a 64-bit count.
fn str_len_u64_of(s: &str) -> (r: u64)
    ensures
        r as int == s.spec_bytes().len(),
{
    let b = s.as_bytes();
    b.len() as u64
}

/// The pool bytes writing one field of a row can claim: the encoded text
/// plus a terminator for a held indirect-text value, nothing otherwise.
pub open spec fn spec_field_budget(f: Field, e: Entry, enc: Encoding) -> int {
    match (f.field_type, e.spec_get(f.hash)) {
        (FieldType::StringOffset, Some(FieldValue::String(s))) => spec_enc_bytes(
            enc,
            s@,
        ).len() as int + 1,
        _ => 0,
    }
}

/// The pool bytes writing a row can claim, over a run of fields.
pub open spec fn spec_row_budget(laid: Seq<Field>, e: Entry, enc: Encoding) -> int
    decreases laid.len(),
{
    if laid.len() == 0 {
        0
    } else {
        spec_row_budget(laid.drop_last(), e, enc) + spec_field_budget(laid.last(), e, enc)
    }
}

/// Row budgets are nonnegative and grow along the field run.
pub proof fn lemma_row_budget_mono(laid: Seq<Field>, e: Entry, enc: Encoding, k: int)
    requires
        0 <= k <= laid.len(),
    ensures
        0 <= spec_row_budget(laid.take(k), e, enc) <= spec_row_budget(laid, e, enc),
        k < laid.len() ==> spec_row_budget(laid.take(k + 1), e, enc) == spec_row_budget(
            laid.take(k),
            e,
            enc,
        ) + spec_field_budget(laid[k], e, enc),
    decreases laid.len() + laid.len() - k,
{
    if k < laid.len() {
        assert(laid.take(k + 1).drop_last() =~= laid.take(k));
        assert(laid.take(k + 1).last() == laid[k]);
        assert(spec_field_budget(laid[k], e, enc) >= 0);
        lemma_row_budget_nonneg(laid.take(k), e, enc);
        lemma_row_budget_mono(laid, e, enc, k + 1);
    } else {
        assert(laid.take(k) =~= laid);
        lemma_row_budget_nonneg(laid, e, enc);
    }
}

/// A row budget is never negative.
pub proof fn lemma_row_budget_nonneg(laid: Seq<Field>, e: Entry, enc: Encoding)
    ensures
        spec_row_budget(laid, e, enc) >= 0,
    decreases laid.len(),
{
    if laid.len() > 0 {
        lemma_row_budget_nonneg(laid.drop_last(), e, enc);
    }
}

/// Whether every value a row holds for a laid-out field can be written:
/// compatible variant, sane shift, and text whose own bytes fit the format.
pub open spec fn spec_row_writable(laid: Seq<Field>, e: Entry, enc: Encoding) -> bool {
    forall|k: int|
        0 <= k < laid.len() ==> match e.spec_get((#[trigger] laid[k]).hash) {
            Some(v) => spec_write_shape_ok(v, laid[k]) && (match v {
                FieldValue::String(s) => encode_utf8(s@).len() <= 0x8000000,
                _ => true,
            }),
            None => true,
        }
}

/// A written window stays described when the dedup list grows at the end.
proof fn lemma_window_stable(
    pre: Seq<u8>,
    post: Seq<u8>,
    offset: int,
    v: FieldValue,
    f: Field,
    o: IoOptions,
    d1: Seq<(String, u32)>,
    d2: Seq<(String, u32)>,
)
    requires
        spec_written_window(pre, post, offset, v, f, o, d1),
        d1.len() <= d2.len(),
        d2.subrange(0, d1.len() as int) == d1,
    ensures
        spec_written_window(pre, post, offset, v, f, o, d2),
{
    if f.field_type == FieldType::StringOffset {
        match v {
            FieldValue::String(s) => {
                lemma_dedup_lookup_stable(d1, d2, s@);
            },
            _ => {},
        }
    }
}

/// Write one row record: every value the row holds for a laid-out field goes
/// to that field's byte window, in on-wire field order (so the pool grows in
/// a deterministic order). Values held under hashes no laid-out field carries
/// are silently skipped.
#[verifier::rlimit(50)]
fn write_row(
    buf: &mut Vec<u8>,
    row_off: usize,
    laid: &Vec<Field>,
    entry: &Entry,
    pool: &mut Vec<u8>,
    dedup: &mut Vec<(String, u32)>,
    options: &IoOptions,
) -> (r: core::result::Result<(), JMapError>)
    requires
        entry.wf(),
        spec_dedup_ok(old(dedup)@, old(pool)@, options.encoding),
        forall|k: int|
            0 <= k < laid@.len() ==> row_off + (#[trigger] laid@[k]).offset + spec_size(
                laid@[k].field_type,
            ) <= old(buf).len(),
        forall|k1: int, k2: int|
            0 <= k1 < k2 < laid@.len() ==> (#[trigger] laid@[k1]).offset + spec_size(
                laid@[k1].field_type,
            ) <= (#[trigger] laid@[k2]).offset || laid@[k2].offset + spec_size(
                laid@[k2].field_type,
            ) <= laid@[k1].offset,
    ensures
        final(buf)@.len() == old(buf)@.len(),
        spec_dedup_ok(final(dedup)@, final(pool)@, options.encoding),
        old(pool)@.len() <= final(pool)@.len(),
        final(pool)@.subrange(0, old(pool)@.len() as int) == old(pool)@,
        final(pool)@.len() <= old(pool)@.len() + spec_row_budget(laid@, *entry, options.encoding),
        final(dedup)@.len() >= old(dedup)@.len(),
        final(dedup)@.subrange(0, old(dedup)@.len() as int) == old(dedup)@,
        forall|i: int|
            0 <= i < old(buf)@.len() && !(exists|k: int|
                0 <= k < laid@.len() && (#[trigger] laid@[k]).offset + row_off <= i < row_off
                    + laid@[k].offset + spec_size(laid@[k].field_type)) ==> final(buf)@[i] == old(
                buf,
            )@[i],
        r is Ok ==> (forall|k: int|
            0 <= k < laid@.len() ==> match entry.spec_get((#[trigger] laid@[k]).hash) {
                Some(v) => spec_write_shape_ok(v, laid@[k]) && spec_written_window(
                    old(buf)@,
                    final(buf)@,
                    row_off + laid@[k].offset,
                    v,
                    laid@[k],
                    *options,
                    final(dedup)@,
                ),
                None => (forall|i: int|
                    row_off + laid@[k].offset <= i < row_off + laid@[k].offset + spec_size(
                        laid@[k].field_type,
                    ) ==> final(buf)@[i] == old(buf)@[i]),
            }),
        r matches Err(JMapError::TypeMismatch { .. }) ==> exists|k: int|
            #![trigger entry.spec_get(laid@[k].hash)]
            0 <= k < laid@.len() && match entry.spec_get(laid@[k].hash) {
                Some(v) => !spec_compatible(v, laid@[k].field_type),
                None => false,
            },
        (spec_row_writable(laid@, *entry, options.encoding) && old(pool)@.len() + spec_row_budget(
            laid@,
            *entry,
            options.encoding,
        ) <= 0xFFFFFFFF) ==> r is Ok,
{
    let ghost zero = old(buf)@;
    let mut k: usize = 0;
    while k < laid.len()
        invariant
            k <= laid@.len(),
            entry.wf(),
            spec_dedup_ok(dedup@, pool@, options.encoding),
            old(pool)@.len() <= pool@.len(),
            pool@.subrange(0, old(pool)@.len() as int) == old(pool)@,
            pool@.len() <= old(pool)@.len() + spec_row_budget(
                laid@.take(k as int),
                *entry,
                options.encoding,
            ),
            dedup@.len() >= old(dedup)@.len(),
            dedup@.subrange(0, old(dedup)@.len() as int) == old(dedup)@,
            buf@.len() == old(buf)@.len(),
            forall|k2: int|
                0 <= k2 < laid@.len() ==> row_off + (#[trigger] laid@[k2]).offset + spec_size(
                    laid@[k2].field_type,
                ) <= buf.len(),
            forall|k1: int, k2: int|
                0 <= k1 < k2 < laid@.len() ==> (#[trigger] laid@[k1]).offset + spec_size(
                    laid@[k1].field_type,
                ) <= (#[trigger] laid@[k2]).offset || laid@[k2].offset + spec_size(
                    laid@[k2].field_type,
                ) <= laid@[k1].offset,
            forall|i: int|
                0 <= i < old(buf)@.len() && !(exists|k2: int|
                    0 <= k2 < k && (#[trigger] laid@[k2]).offset + row_off <= i < row_off
                        + laid@[k2].offset + spec_size(laid@[k2].field_type)) ==> buf@[i] == old(
                    buf,
                )@[i],
            forall|k2: int|
                0 <= k2 < k ==> match entry.spec_get((#[trigger] laid@[k2]).hash) {
                    Some(v) => spec_write_shape_ok(v, laid@[k2]) && spec_written_window(
                        old(buf)@,
                        buf@,
                        row_off + laid@[k2].offset,
                        v,
                        laid@[k2],
                        *options,
                        dedup@,
                    ),
                    None => (forall|i: int|
                        row_off + laid@[k2].offset <= i < row_off + laid@[k2].offset + spec_size(
                            laid@[k2].field_type,
                        ) ==> buf@[i] == old(buf)@[i]),
                },
        decreases laid@.len() - k,
    {
        let field = &laid[k];
        proof {
            lemma_row_budget_mono(laid@, *entry, options.encoding, k as int);
        }
        match entry.get_by_hash(field.hash) {
            None => {
                proof {
                    assert(laid@.take(k + 1).drop_last() =~= laid@.take(k as int));
                }
            },
            Some(value) => {
                if !value.is_compatible_with(field.field_type) {
                    return Err(
                        JMapError::TypeMismatch {
                            expected: field.field_type.csv_name(),
                            got: value.variant_name(),
                        },
                    );
                }
                let ghost pre_buf = buf@;
                let ghost pre_dedup = dedup@;
                let ghost pre_pool = pool@;
                let slot = row_off + field.offset as usize;
                let res = write_field_value(
                    buf,
                    slot,
                    value,
                    field,
                    pool,
                    dedup,
                    options,
                );
                match res {
                    Ok(u) => {
                        proof {
                            // Earlier windows are disjoint from this one, so their
                            // bytes and their described contents survive; their
                            // dedup lookups survive the list's growth.
                            assert(dedup@.subrange(0, old(dedup)@.len() as int) =~= pre_dedup.subrange(
                                0,
                                old(dedup)@.len() as int,
                            ));
                            assert(pool@.subrange(0, old(pool)@.len() as int) =~= pre_pool.subrange(
                                0,
                                old(pool)@.len() as int,
                            ));
                            assert forall|k2: int| 0 <= k2 < k + 1 implies match entry.spec_get(
                                (#[trigger] laid@[k2]).hash,
                            ) {
                                Some(v) => spec_write_shape_ok(v, laid@[k2])
                                    && spec_written_window(
                                    old(buf)@,
                                    buf@,
                                    row_off + laid@[k2].offset,
                                    v,
                                    laid@[k2],
                                    *options,
                                    dedup@,
                                ),
                                None => (forall|i: int|
                                    row_off + laid@[k2].offset <= i < row_off + laid@[k2].offset
                                        + spec_size(laid@[k2].field_type) ==> buf@[i] == old(
                                        buf,
                                    )@[i]),
                            } by {
                                lemma_window_regions(
                                    old(buf)@,
                                    pre_buf,
                                    buf@,
                                    row_off as int,
                                    laid@,
                                    k2,
                                    k as int,
                                    *entry,
                                    *options,
                                    pre_dedup,
                                    dedup@,
                                );
                            }
                            assert(laid@.take(k + 1).drop_last() =~= laid@.take(k as int));
                        }
                    },
                    Err(e) => {
                        proof {
                            lemma_row_budget_mono(laid@, *entry, options.encoding, k + 1);
                            assert(laid@.take(k + 1).drop_last() =~= laid@.take(k as int));
                            assert(laid@.take(k + 1).last() == laid@[k as int]);
                        }
                        return Err(e);
                    },
                }
            },
        }
        k = k + 1;
    }
    proof {
        assert(laid@.take(laid@.len() as int) =~= laid@);
    }
    Ok(())
}

/// After one more window is written, every earlier window keeps its
/// description and the new one gains its own; bytes in no window are
/// untouched.
proof fn lemma_window_regions(
    zero: Seq<u8>,
    pre: Seq<u8>,
    post: Seq<u8>,
    row_off: int,
    laid: Seq<Field>,
    k2: int,
    k: int,
    e: Entry,
    o: IoOptions,
    d1: Seq<(String, u32)>,
    d2: Seq<(String, u32)>,
)
    requires
        0 <= k2 <= k < laid.len(),
        zero.len() == pre.len() == post.len(),
        d1.len() <= d2.len(),
        d2.subrange(0, d1.len() as int) == d1,
        forall|i: int|
            0 <= i < pre.len() && !(row_off + laid[k].offset <= i < row_off + laid[k].offset
                + spec_size(laid[k].field_type)) ==> post[i] == pre[i],
        forall|kk: int|
            0 <= kk < laid.len() ==> row_off + (#[trigger] laid[kk]).offset + spec_size(
                laid[kk].field_type,
            ) <= pre.len(),
        0 <= row_off,
        forall|kk1: int, kk2: int|
            0 <= kk1 < kk2 < laid.len() ==> (#[trigger] laid[kk1]).offset + spec_size(
                laid[kk1].field_type,
            ) <= (#[trigger] laid[kk2]).offset || laid[kk2].offset + spec_size(
                laid[kk2].field_type,
            ) <= laid[kk1].offset,
        k2 < k ==> match e.spec_get(laid[k2].hash) {
            Some(v) => spec_write_shape_ok(v, laid[k2]) && spec_written_window(
                zero,
                pre,
                row_off + laid[k2].offset,
                v,
                laid[k2],
                o,
                d1,
            ),
            None => (forall|i: int|
                row_off + laid[k2].offset <= i < row_off + laid[k2].offset + spec_size(
                    laid[k2].field_type,
                ) ==> pre[i] == zero[i]),
        },
        k2 == k ==> match e.spec_get(laid[k].hash) {
            Some(v) => spec_write_shape_ok(v, laid[k]) && spec_written_window(
                pre,
                post,
                row_off + laid[k].offset,
                v,
                laid[k],
                o,
                d2,
            ),
            None => true,
        },
        k2 == k ==> e.spec_get(laid[k].hash) is Some,
        forall|i: int|
            0 <= i < pre.len() && !(exists|kk: int|
                0 <= kk < k && (#[trigger] laid[kk]).offset + row_off <= i < row_off
                    + laid[kk].offset + spec_size(laid[kk].field_type)) ==> pre[i] == zero[i],
    ensures
        match e.spec_get(laid[k2].hash) {
            Some(v) => spec_write_shape_ok(v, laid[k2]) && spec_written_window(
                zero,
                post,
                row_off + laid[k2].offset,
                v,
                laid[k2],
                o,
                d2,
            ),
            None => (forall|i: int|
                row_off + laid[k2].offset <= i < row_off + laid[k2].offset + spec_size(
                    laid[k2].field_type,
                ) ==> post[i] == zero[i]),
        },
{
    let w2 = row_off + laid[k2].offset;
    let sz2 = spec_size(laid[k2].field_type);
    let wk = row_off + laid[k].offset;
    let szk = spec_size(laid[k].field_type);
    if k2 < k {
        // disjoint: window k2 untouched by the write at window k
        assert(laid[k2].offset + sz2 <= laid[k].offset || laid[k].offset + szk
            <= laid[k2].offset);
        assert(w2 + sz2 <= pre.len());
        assert forall|i: int| w2 <= i < w2 + sz2 implies post[i] == pre[i] by {
            assert(laid[k2].offset + sz2 <= laid[k].offset || laid[k].offset + szk
                <= laid[k2].offset);
            assert(!(wk <= i < wk + szk));
        }
        match e.spec_get(laid[k2].hash) {
            Some(v) => {
                assert(post.subrange(w2, w2 + sz2) =~= pre.subrange(w2, w2 + sz2));
                lemma_window_eq(zero, pre, post, w2, v, laid[k2], o, d1);
                lemma_window_stable(zero, post, w2, v, laid[k2], o, d1, d2);
            },
            None => {},
        }
    } else {
        // the freshly written window: its pre-bytes were the untouched zeros
        let v = e.spec_get(laid[k].hash).unwrap();
        assert forall|i: int| wk <= i < wk + szk implies pre[i] == zero[i] by {
            assert forall|kk: int|
                0 <= kk < k implies !((#[trigger] laid[kk]).offset + row_off <= i < row_off
                + laid[kk].offset + spec_size(laid[kk].field_type)) by {
                assert(laid[kk].offset + spec_size(laid[kk].field_type) <= laid[k].offset
                    || laid[k].offset + szk <= laid[kk].offset);
            }
        }
        lemma_window_pre_eq(zero, pre, post, wk, v, laid[k], o, d2);
    }
}

/// A window description only reads the window's bytes of the after-image:
/// equal windows give equal descriptions.
proof fn lemma_window_eq(
    pre: Seq<u8>,
    post1: Seq<u8>,
    post2: Seq<u8>,
    offset: int,
    v: FieldValue,
    f: Field,
    o: IoOptions,
    d: Seq<(String, u32)>,
)
    requires
        spec_written_window(pre, post1, offset, v, f, o, d),
        post1.len() == post2.len(),
        0 <= offset,
        offset + spec_size(f.field_type) <= post1.len(),
        forall|i: int| offset <= i < offset + spec_size(f.field_type) ==> post1[i] == post2[i],
    ensures
        spec_written_window(pre, post2, offset, v, f, o, d),
{
    assert(post2.subrange(offset, offset + spec_size(f.field_type)) =~= post1.subrange(
        offset,
        offset + spec_size(f.field_type),
    ));
    match f.field_type {
        FieldType::Long | FieldType::UnsignedLong | FieldType::Float | FieldType::StringOffset => {
            assert(post2.subrange(offset, offset + 4) =~= post1.subrange(offset, offset + 4));
        },
        FieldType::Short => {
            assert(post2.subrange(offset, offset + 2) =~= post1.subrange(offset, offset + 2));
        },
        FieldType::Char => {},
        FieldType::String => {
            match v {
                FieldValue::String(s) => {
                    let eb = spec_enc_bytes(o.encoding, s@);
                    let l: int = if eb.len() < 32 {
                        eb.len() as int
                    } else {
                        32
                    };
                    assert(post2.subrange(offset, offset + l) =~= post1.subrange(
                        offset,
                        offset + l,
                    ));
                },
                _ => {},
            }
        },
    }
}

/// A window description only reads the window's bytes of the before-image
/// too: equal windows in the before-image give equal descriptions.
proof fn lemma_window_pre_eq(
    pre1: Seq<u8>,
    pre2: Seq<u8>,
    post: Seq<u8>,
    offset: int,
    v: FieldValue,
    f: Field,
    o: IoOptions,
    d: Seq<(String, u32)>,
)
    requires
        spec_written_window(pre2, post, offset, v, f, o, d),
        pre1.len() == pre2.len(),
        0 <= offset,
        offset + spec_size(f.field_type) <= pre1.len(),
        forall|i: int| offset <= i < offset + spec_size(f.field_type) ==> pre1[i] == pre2[i],
    ensures
        spec_written_window(pre1, post, offset, v, f, o, d),
{
    match f.field_type {
        FieldType::Long | FieldType::UnsignedLong => {
            assert(pre1.subrange(offset, offset + 4) =~= pre2.subrange(offset, offset + 4));
            crate::bytes::lemma_read_u32_depends_on_window(pre1, pre2, offset, o.big_endian);
        },
        FieldType::Short => {
            assert(pre1[offset] == pre2[offset] && pre1[offset + 1] == pre2[offset + 1]);
        },
        FieldType::Char => {},
        _ => {},
    }
}

/// The sixteen header bytes: entry count, field count, row-region offset and
/// row size, in the configured endianness.
pub open spec fn spec_header_bytes(ne: u32, nf: u32, od: u32, es: u32, be: bool) -> Seq<u8> {
    u32_bytes(ne, be) + u32_bytes(nf, be) + u32_bytes(od, be) + u32_bytes(es, be)
}

/// The twelve bytes of a field's directory record: hash, mask, row offset,
/// shift and type code.
pub open spec fn spec_field_record(f: Field, be: bool) -> Seq<u8> {
    u32_bytes(f.hash, be) + u32_bytes(f.mask, be) + u16_bytes(f.offset, be) + seq![
        f.shift,
        spec_type_code(f.field_type),
    ]
}

/// All zero bytes.
pub open spec fn spec_zeros(n: nat) -> Seq<u8> {
    Seq::new(n, |i: int| 0u8)
}

/// The pool bytes encoding a whole table can claim.
pub open spec fn spec_pool_budget(laid: Seq<Field>, entries: Seq<Entry>, enc: Encoding) -> int
    decreases entries.len(),
{
    if entries.len() == 0 {
        0
    } else {
        spec_pool_budget(laid, entries.drop_last(), enc) + spec_row_budget(
            laid,
            entries.last(),
            enc,
        )
    }
}

/// Pool budgets are nonnegative and grow along the row run.
pub proof fn lemma_pool_budget_mono(laid: Seq<Field>, entries: Seq<Entry>, enc: Encoding, j: int)
    requires
        0 <= j <= entries.len(),
    ensures
        0 <= spec_pool_budget(laid, entries.take(j), enc) <= spec_pool_budget(laid, entries, enc),
        j < entries.len() ==> spec_pool_budget(laid, entries.take(j + 1), enc) == spec_pool_budget(
            laid,
            entries.take(j),
            enc,
        ) + spec_row_budget(laid, entries[j], enc),
    decreases entries.len() + entries.len() - j,
{
    if j < entries.len() {
        assert(entries.take(j + 1).drop_last() =~= entries.take(j));
        assert(entries.take(j + 1).last() == entries[j]);
        lemma_row_budget_nonneg(laid, entries[j], enc);
        lemma_pool_budget_nonneg(laid, entries.take(j), enc);
        lemma_pool_budget_mono(laid, entries, enc, j + 1);
    } else {
        assert(entries.take(j) =~= entries);
        lemma_pool_budget_nonneg(laid, entries, enc);
    }
}

/// A pool budget is never negative.
pub proof fn lemma_pool_budget_nonneg(laid: Seq<Field>, entries: Seq<Entry>, enc: Encoding)
    ensures
        spec_pool_budget(laid, entries, enc) >= 0,
    decreases entries.len(),
{
    if entries.len() > 0 {
        lemma_pool_budget_nonneg(laid, entries.drop_last(), enc);
        lemma_row_budget_nonneg(laid, entries.last(), enc);
    }
}

/// Every row window of the finished buffer holds what its field and value
/// dictate, and every window of an absent value is zero.
#[verifier::opaque]
pub open spec fn spec_rows_encoded(
    laid: Seq<Field>,
    entries: Seq<Entry>,
    o: IoOptions,
    buf: Seq<u8>,
    od: int,
    rs: int,
    base: int,
) -> bool {
    forall|j: int, k: int|
        #![trigger entries[j].spec_get(laid[k].hash)]
        0 <= j < entries.len() && 0 <= k < laid.len() ==> match entries[j].spec_get(laid[k].hash) {
            Some(v) => spec_write_shape_ok(v, laid[k]) && spec_written_window_zero(
                buf,
                od + j * rs + laid[k].offset,
                v,
                laid[k],
                o,
                base,
            ),
            None => (forall|i: int|
                od + j * rs + laid[k].offset <= i < od + j * rs + laid[k].offset + spec_size(
                    laid[k].field_type,
                ) ==> buf[i] == 0),
        }
}

/// Two stored pool offsets are equal exactly when the texts they were written
/// for are equal: the pool holds one copy per distinct text.
#[verifier::opaque]
pub open spec fn spec_pool_dedup_exact(
    laid: Seq<Field>,
    entries: Seq<Entry>,
    o: IoOptions,
    buf: Seq<u8>,
    od: int,
    rs: int,
) -> bool {
    forall|j1: int, k1: int, j2: int, k2: int|
        #![trigger entries[j1].spec_get(laid[k1].hash), entries[j2].spec_get(laid[k2].hash)]
        {
            &&& 0 <= j1 < entries.len() && 0 <= k1 < laid.len() && 0 <= j2 < entries.len() && 0
                <= k2 < laid.len()
            &&& laid[k1].field_type == FieldType::StringOffset
            &&& laid[k2].field_type == FieldType::StringOffset
            &&& entries[j1].spec_get(laid[k1].hash) matches Some(FieldValue::String(_))
            &&& entries[j2].spec_get(laid[k2].hash) matches Some(FieldValue::String(_))
        } ==> {
            let t1 = spec_text_of(entries[j1].spec_get(laid[k1].hash).unwrap());
            let t2 = spec_text_of(entries[j2].spec_get(laid[k2].hash).unwrap());
            (spec_read_u32(buf, od + j1 * rs + laid[k1].offset, o.big_endian) == spec_read_u32(
                buf,
                od + j2 * rs + laid[k2].offset,
                o.big_endian,
            )) == (t1 == t2)
        }
}

/// Write a table container into a fresh byte buffer: header, field directory
/// in the canonical packed order, one fixed-size record per row, the
/// deduplicated string pool, and pad bytes up to a 32-byte boundary.
#[verifier::rlimit(100)]
pub fn to_buffer<H: HashTable>(jmap: &JMapInfo<H>, options: &IoOptions) -> (r:
    core::result::Result<Vec<u8>, JMapError>)
    requires
        jmap.wf(),
        spec_total_width(jmap.spec_fields()) <= 0xFFFF,
        jmap.spec_fields().len() <= 0xFFFF,
        jmap.spec_entries().len() <= 0xFFFFFFFF,
        16 + 12 * jmap.spec_fields().len() + jmap.spec_entries().len() * spec_row_size(
            jmap.spec_fields(),
        ) <= usize::MAX,
    ensures
        ({
            let fields = jmap.spec_fields();
            let laid = spec_with_offsets(fields);
            let entries = jmap.spec_entries();
            let ne = entries.len() as int;
            let nf = fields.len() as int;
            let rs = spec_row_size(fields);
            let od = 16 + 12 * nf;
            let base = od + ne * rs;
            let be = options.big_endian;
            let enc = options.encoding;
            &&& (r matches Ok(buf) ==> {
                &&& buf@.len() % 32 == 0
                &&& base <= buf@.len()
                &&& buf@.subrange(0, 16) == spec_header_bytes(
                    ne as u32,
                    nf as u32,
                    od as u32,
                    rs as u32,
                    be,
                )
                &&& (forall|k: int|
                    0 <= k < nf ==> buf@.subrange(16 + 12 * k, 16 + 12 * k + 12)
                        == spec_field_record(#[trigger] laid[k], be))
                &&& spec_rows_encoded(laid, entries, *options, buf@, od, rs, base)
                &&& spec_pool_dedup_exact(laid, entries, *options, buf@, od, rs)
                &&& (exists|plen: int| #[trigger] spec_padded_at(buf@, base, plen))
            })
            &&& (r matches Err(JMapError::TypeMismatch { .. }) ==> exists|j: int, k: int|
                #![trigger entries[j].spec_get(laid[k].hash)]
                0 <= j < ne && 0 <= k < nf && match entries[j].spec_get(laid[k].hash) {
                    Some(v) => !spec_compatible(v, laid[k].field_type),
                    None => false,
                })
            &&& (((forall|j: int|
                0 <= j < ne ==> spec_row_writable(laid, #[trigger] entries[j], enc))
                && spec_pool_budget(laid, entries, enc) <= 0xFFFFFFFF && base + spec_pool_budget(
                laid,
                entries,
                enc,
            ) + 31 <= usize::MAX) ==> r is Ok)
        }),
{
    let fields_ref = jmap.fields();
    proof {
        crate::layout::lemma_layout_len(jmap.spec_fields());
        crate::layout::lemma_row_size_covers(jmap.spec_fields());
    }
    let (laid, row_size) = crate::layout::layout_fields(fields_ref);
    let ne = jmap.len();
    let nf = jmap.num_fields();
    let od: usize = 16 + 12 * nf;
    let rows_total: usize = ne * (row_size as usize);
    let base: usize = od + rows_total;
    let ghost laidv = laid@;
    let ghost rs = spec_row_size(jmap.spec_fields());
    let ghost be = options.big_endian;
    let ghost enc = options.encoding;
    let ghost entriesv = jmap.spec_entries();

    proof {
        assert forall|k1: int, k2: int| 0 <= k1 < k2 < laidv.len() implies ((
        #[trigger] laidv[k1]).offset + spec_size(laidv[k1].field_type) <= (
        #[trigger] laidv[k2]).offset || laidv[k2].offset + spec_size(laidv[k2].field_type)
            <= laidv[k1].offset) by {
            crate::layout::lemma_offsets_disjoint(jmap.spec_fields(), k1, k2);
        }
        assert forall|k: int| 0 <= k < laidv.len() implies (#[trigger] laidv[k]).offset
            + spec_size(laidv[k].field_type) <= rs by {
            let sorted = crate::layout::spec_layout_sorted(jmap.spec_fields());
            crate::layout::lemma_prefix_width_mono(sorted, 0, k);
            crate::layout::lemma_prefix_width_mono(sorted, k, sorted.len() as int);
            crate::layout::lemma_prefix_width_mono(sorted, k + 1, sorted.len() as int);
            assert(laidv[k].offset == crate::layout::spec_prefix_width(sorted, k) as u16);
            assert(0 <= crate::layout::spec_prefix_width(sorted, k) <= 0xFFFF);
        }
    }

    // A zeroed backing buffer for header, directory and row records.
    let mut buf: Vec<u8> = Vec::new();
    let mut z: usize = 0;
    while z < base
        invariant
            z <= base,
            buf@.len() == z,
            forall|i: int| 0 <= i < z ==> buf@[i] == 0,
        decreases base - z,
    {
        buf.push(0);
        z = z + 1;
    }

    // Header.
    put_u32(&mut buf, 0, ne as u32, options.big_endian);
    put_u32(&mut buf, 4, nf as u32, options.big_endian);
    put_u32(&mut buf, 8, od as u32, options.big_endian);
    put_u32(&mut buf, 12, row_size, options.big_endian);
    proof {
        assert(buf@.subrange(0, 16) =~= spec_header_bytes(
            ne as u32,
            nf as u32,
            od as u32,
            row_size,
            be,
        ));
    }

    // Field directory, in the canonical packed order.
    let mut k: usize = 0;
    while k < laid.len()
        invariant
            k <= laidv.len(),
            laid@ == laidv,
            buf@.len() == base,
            base == od + ne as int * rs,
            od == 16 + 12 * laidv.len(),
            be == options.big_endian,
            buf@.subrange(0, 16) == spec_header_bytes(
                (ne as u32),
                (nf as u32),
                (od as u32),
                (rs as u32),
                be,
            ),
            rs == row_size,
            forall|k2: int|
                0 <= k2 < k ==> buf@.subrange(16 + 12 * k2, 16 + 12 * k2 + 12)
                    == spec_field_record(#[trigger] laidv[k2], be),
            forall|i: int| 16 + 12 * k <= i < base ==> buf@[i] == 0,
        decreases laidv.len() - k,
    {
        let off = 16 + 12 * k;
        let f = &laid[k];
        let ghost pre = buf@;
        put_u32(&mut buf, off, f.hash, options.big_endian);
        put_u32(&mut buf, off + 4, f.mask, options.big_endian);
        put_u16(&mut buf, off + 8, f.offset, options.big_endian);
        buf.set(off + 10, f.shift);
        buf.set(off + 11, f.field_type.type_code());
        k = k + 1;
        proof {
            assert(buf@.subrange(16 + 12 * (k - 1), 16 + 12 * (k - 1) + 12) =~= spec_field_record(
                laidv[k as int - 1],
                be,
            ));
            assert(buf@.subrange(0, 16) =~= pre.subrange(0, 16));
            assert forall|k2: int| 0 <= k2 < k - 1 implies buf@.subrange(
                16 + 12 * k2,
                16 + 12 * k2 + 12,
            ) == spec_field_record(#[trigger] laidv[k2], be) by {
                assert(buf@.subrange(16 + 12 * k2, 16 + 12 * k2 + 12) =~= pre.subrange(
                    16 + 12 * k2,
                    16 + 12 * k2 + 12,
                ));
            }
        }
    }

    // Row records, row-major in on-wire field order, growing the string pool.
    let mut pool: Vec<u8> = Vec::new();
    let mut dedup: Vec<(String, u32)> = Vec::new();
    let mut j: usize = 0;
    proof {
        assert(entriesv.take(0) =~= Seq::<Entry>::empty());
    }
    while j < ne
        invariant
            j <= ne,
            ne == entriesv.len(),
            nf == laidv.len(),
            nf == jmap.spec_fields().len(),
            laid@ == laidv,
            laidv == spec_with_offsets(jmap.spec_fields()),
            rs == spec_row_size(jmap.spec_fields()),
            jmap.wf(),
            jmap.spec_entries() == entriesv,
            buf@.len() == base,
            base == od + ne as int * rs,
            od == 16 + 12 * laidv.len(),
            be == options.big_endian,
            enc == options.encoding,
            rs == row_size,
            spec_total_width(jmap.spec_fields()) <= rs <= 0x10002,
            forall|k1: int, k2: int|
                0 <= k1 < k2 < laidv.len() ==> ((#[trigger] laidv[k1]).offset + spec_size(
                    laidv[k1].field_type,
                ) <= (#[trigger] laidv[k2]).offset || laidv[k2].offset + spec_size(
                    laidv[k2].field_type,
                ) <= laidv[k1].offset),
            forall|k2: int|
                0 <= k2 < laidv.len() ==> (#[trigger] laidv[k2]).offset + spec_size(
                    laidv[k2].field_type,
                ) <= rs,
            buf@.subrange(0, 16) == spec_header_bytes(
                (ne as u32),
                (nf as u32),
                (od as u32),
                (rs as u32),
                be,
            ),
            forall|k2: int|
                0 <= k2 < laidv.len() ==> buf@.subrange(16 + 12 * k2, 16 + 12 * k2 + 12)
                    == spec_field_record(#[trigger] laidv[k2], be),
            spec_dedup_ok(dedup@, pool@, enc),
            pool@.len() <= spec_pool_budget(laidv, entriesv.take(j as int), enc),
            forall|i: int| od + j * rs <= i < base ==> buf@[i] == 0,
            forall|j2: int, k2: int|
                #![trigger entriesv[j2].spec_get(laidv[k2].hash)]
                0 <= j2 < j && 0 <= k2 < laidv.len() ==> match entriesv[j2].spec_get(
                    laidv[k2].hash,
                ) {
                    Some(v) => spec_write_shape_ok(v, laidv[k2]) && spec_written_window(
                        spec_zeros(base as nat),
                        buf@,
                        od + j2 * rs + laidv[k2].offset,
                        v,
                        laidv[k2],
                        *options,
                        dedup@,
                    ),
                    None => (forall|i: int|
                        od + j2 * rs + laidv[k2].offset <= i < od + j2 * rs + laidv[k2].offset
                            + spec_size(laidv[k2].field_type) ==> buf@[i] == 0),
                },
        decreases ne - j,
    {
        proof {
            assert(j as int * rs <= ne as int * rs && (j + 1) as int * rs <= ne as int * rs && (j
                + 1) as int * rs == j as int * rs + rs) by (nonlinear_arith)
                requires
                    0 <= j < ne,
                    0 <= rs,
            ;
            crate::layout::lemma_prefix_width_nonneg(
                crate::layout::spec_layout_sorted(jmap.spec_fields()),
                0,
            );
        }
        let row_off = od + j * (row_size as usize);
        proof {
            assert forall|k2: int|
                0 <= k2 < laidv.len() implies row_off + (#[trigger] laidv[k2]).offset + spec_size(
                laidv[k2].field_type,
            ) <= buf@.len() by {
                assert(laidv[k2].offset + spec_size(laidv[k2].field_type) <= rs);
            }
        }
        let entries_ref = jmap.entries();
        let entry = &entries_ref[j];
        let ghost pre_buf = buf@;
        let ghost pre_dedup = dedup@;
        let ghost pre_pool = pool@;
        let res = write_row(&mut buf, row_off, &laid, entry, &mut pool, &mut dedup, options);
        match res {
            Ok(u) => {},
            Err(e) => {
                proof {
                    lemma_pool_budget_mono(laidv, entriesv, enc, j as int);
                    if e matches JMapError::TypeMismatch { .. } {
                        assert(exists|k2: int|
                            #![trigger entriesv[j as int].spec_get(laidv[k2].hash)]
                            0 <= k2 < laidv.len() && match entriesv[j as int].spec_get(
                                laidv[k2].hash,
                            ) {
                                Some(v) => !spec_compatible(v, laidv[k2].field_type),
                                None => false,
                            });
                        let kw = choose|k2: int|
                            #![trigger entriesv[j as int].spec_get(laidv[k2].hash)]
                            0 <= k2 < laidv.len() && match entriesv[j as int].spec_get(
                                laidv[k2].hash,
                            ) {
                                Some(v) => !spec_compatible(v, laidv[k2].field_type),
                                None => false,
                            };
                        assert(0 <= j < entriesv.len() && 0 <= kw < laidv.len() && match entriesv[j as int].spec_get(
                            laidv[kw].hash,
                        ) {
                            Some(v) => !spec_compatible(v, laidv[kw].field_type),
                            None => false,
                        });
                    }
                    if (forall|j2: int|
                        0 <= j2 < entriesv.len() ==> spec_row_writable(
                            laidv,
                            #[trigger] entriesv[j2],
                            enc,
                        )) && spec_pool_budget(laidv, entriesv, enc) <= 0xFFFFFFFF {
                        assert(spec_row_writable(laidv, entriesv[j as int], enc));
                        assert(pre_pool.len() <= spec_pool_budget(
                            laidv,
                            entriesv.take(j as int),
                            enc,
                        ));
                        lemma_pool_budget_mono(laidv, entriesv, enc, j + 1);
                        assert(pre_pool.len() + spec_row_budget(laidv, entriesv[j as int], enc)
                            <= 0xFFFFFFFF);
                        assert(false);
                    }
                }
                return Err(e);
            },
        }
        j = j + 1;
        proof {
            lemma_pool_budget_mono(laidv, entriesv, enc, j - 1);
            // earlier rows keep their windows: this row only touched its own
            // region, and dedup only grew
            assert forall|j2: int, k2: int|
                #![trigger entriesv[j2].spec_get(laidv[k2].hash)]
                0 <= j2 < j && 0 <= k2 < laidv.len() implies match entriesv[j2].spec_get(
                laidv[k2].hash,
            ) {
                Some(v) => spec_write_shape_ok(v, laidv[k2]) && spec_written_window(
                    spec_zeros(base as nat),
                    buf@,
                    od + j2 * rs + laidv[k2].offset,
                    v,
                    laidv[k2],
                    *options,
                    dedup@,
                ),
                None => (forall|i: int|
                    od + j2 * rs + laidv[k2].offset <= i < od + j2 * rs + laidv[k2].offset
                        + spec_size(laidv[k2].field_type) ==> buf@[i] == 0),
            } by {
                let slot = od + j2 * rs + laidv[k2].offset;
                let sz = spec_size(laidv[k2].field_type);
                if j2 < j - 1 {
                    assert((j2 + 1) as int * rs <= (j - 1) as int * rs && (j2 + 1) as int * rs
                        == j2 as int * rs + rs) by (nonlinear_arith)
                        requires
                            0 <= j2 < j - 1,
                            0 <= rs,
                    ;
                    assert(slot + sz <= od + (j - 1) * rs);
                    assert forall|i: int| slot <= i < slot + sz implies buf@[i] == pre_buf[i] by {
                        assert forall|kk: int|
                            0 <= kk < laidv.len() implies !((#[trigger] laidv[kk]).offset + od + (j
                                - 1) * rs <= i < od + (j - 1) * rs + laidv[kk].offset + spec_size(
                                laidv[kk].field_type,
                            )) by {
                            assert(laidv[kk].offset >= 0);
                        }
                    }
                    match entriesv[j2].spec_get(laidv[k2].hash) {
                        Some(v) => {
                            lemma_window_eq(
                                spec_zeros(base as nat),
                                pre_buf,
                                buf@,
                                slot,
                                v,
                                laidv[k2],
                                *options,
                                pre_dedup,
                            );
                            lemma_window_stable(
                                spec_zeros(base as nat),
                                buf@,
                                slot,
                                v,
                                laidv[k2],
                                *options,
                                pre_dedup,
                                dedup@,
                            );
                        },
                        None => {},
                    }
                } else {
                    // the row just written
                    match entriesv[j2].spec_get(laidv[k2].hash) {
                        Some(v) => {
                            assert(spec_written_window(
                                pre_buf,
                                buf@,
                                slot,
                                v,
                                laidv[k2],
                                *options,
                                dedup@,
                            ));
                            assert forall|i: int| slot <= i < slot + sz implies pre_buf[i]
                                == spec_zeros(base as nat)[i] by {
                                assert(od + (j - 1) * rs <= i < base);
                            }
                            lemma_window_pre_eq(
                                spec_zeros(base as nat),
                                pre_buf,
                                buf@,
                                slot,
                                v,
                                laidv[k2],
                                *options,
                                dedup@,
                            );
                        },
                        None => {
                            assert forall|i: int| slot <= i < slot + sz implies buf@[i] == 0 by {
                                assert(pre_buf[i] == 0);
                            }
                        },
                    }
                }
            }
            // rows beyond stay zero
            assert forall|i: int| od + j * rs <= i < base implies buf@[i] == 0 by {
                assert forall|kk: int|
                    0 <= kk < laidv.len() implies !((#[trigger] laidv[kk]).offset + od + (j - 1)
                        * rs <= i < od + (j - 1) * rs + laidv[kk].offset + spec_size(
                        laidv[kk].field_type,
                    )) by {}
                assert(pre_buf[i] == 0);
            }
            assert(buf@.subrange(0, 16) =~= pre_buf.subrange(0, 16));
            assert forall|k2: int| 0 <= k2 < laidv.len() implies buf@.subrange(
                16 + 12 * k2,
                16 + 12 * k2 + 12,
            ) == spec_field_record(#[trigger] laidv[k2], be) by {
                assert forall|i: int| 16 + 12 * k2 <= i < 16 + 12 * k2 + 12 implies buf@[i]
                    == pre_buf[i] by {
                    assert forall|kk: int|
                        0 <= kk < laidv.len() implies !((#[trigger] laidv[kk]).offset + od + (j
                            - 1) * rs <= i < od + (j - 1) * rs + laidv[kk].offset + spec_size(
                            laidv[kk].field_type,
                        )) by {
                        assert(laidv[kk].offset >= 0);
                        assert((j - 1) as int * rs >= 0) by (nonlinear_arith)
                            requires
                                0 <= j - 1,
                                0 <= rs,
                        ;
                    }
                }
                assert(buf@.subrange(16 + 12 * k2, 16 + 12 * k2 + 12) =~= pre_buf.subrange(
                    16 + 12 * k2,
                    16 + 12 * k2 + 12,
                ));
            }
        }
    }
    proof {
        assert(entriesv.take(ne as int) =~= entriesv);
    }

    // Append the string pool, then pad to a 32-byte boundary with the fixed
    // pad byte.
    let plen = pool.len();
    let ghost rows_image = buf@;
    if plen > usize::MAX - 31 || base > usize::MAX - 31 - plen {
        proof {
            lemma_pool_budget_nonneg(laidv, entriesv, enc);
            if spec_pool_budget(laidv, entriesv, enc) <= 0xFFFFFFFF && base as int
                + spec_pool_budget(laidv, entriesv, enc) + 31 <= usize::MAX {
                assert(plen <= spec_pool_budget(laidv, entriesv, enc));
                assert(false);
            }
        }
        return Err(
            JMapError::EncodingError(String::from_str("encoded table exceeds this machine")),
        );
    }
    buf.extend_from_slice(pool.as_slice());
    let len = buf.len();
    let pad: usize = (32 - (len % 32)) % 32;
    let mut q: usize = 0;
    while q < pad
        invariant
            q <= pad,
            buf@.len() == len + q,
            buf@.subrange(0, len as int) == rows_image + pool@,
            forall|i: int| len <= i < len + q ==> buf@[i] == 0x40,
        decreases pad - q,
    {
        buf.push(0x40);
        q = q + 1;
    }
    proof {
        assert((len + pad) % 32 == 0 && pad < 32) by (nonlinear_arith)
            requires
                pad == (32 - (len % 32)) % 32,
                0 <= len,
        ;
        assert forall|i: int| 0 <= i < base implies buf@[i] == rows_image[i] by {
            assert(buf@.subrange(0, len as int)[i] == (rows_image + pool@)[i]);
            assert(buf@.subrange(0, len as int)[i] == buf@[0 + i]);
            assert((rows_image + pool@)[i] == rows_image[i]);
        }
        assert(buf@.subrange(0, 16) =~= rows_image.subrange(0, 16));
        assert forall|k2: int| 0 <= k2 < laidv.len() implies buf@.subrange(
            16 + 12 * k2,
            16 + 12 * k2 + 12,
        ) == spec_field_record(#[trigger] laidv[k2], be) by {
            assert(buf@.subrange(16 + 12 * k2, 16 + 12 * k2 + 12) =~= rows_image.subrange(
                16 + 12 * k2,
                16 + 12 * k2 + 12,
            ));
        }
        assert(spec_padded_at(buf@, base as int, plen as int));
        assert(buf@.len() % 32 == 0);
        assert(laidv == spec_with_offsets(jmap.spec_fields()));
        assert(entriesv == jmap.spec_entries());
        assert(od as int == 16 + 12 * jmap.spec_fields().len());
        assert(rs == spec_row_size(jmap.spec_fields()));
        assert(base as int == 16 + 12 * jmap.spec_fields().len() + jmap.spec_entries().len()
            * spec_row_size(jmap.spec_fields()));
        assert(base <= buf@.len());
        lemma_final_claims(
            rows_image,
            pool@,
            buf@,
            laidv,
            entriesv,
            *options,
            dedup@,
            od as int,
            rs,
            base as int,
        );
    }
    Ok(buf)
}

/// The tail of the buffer from `base + plen` on is under 32 bytes of the
/// fixed pad value.
pub open spec fn spec_padded_at(buf: Seq<u8>, base: int, plen: int) -> bool {
    &&& 0 <= plen
    &&& base + plen <= buf.len() < base + plen + 32
    &&& (forall|i: int| base + plen <= i < buf.len() ==> #[trigger] buf[i] == 0x40)
}

/// A held value's text characters.
pub open spec fn spec_text_of(v: FieldValue) -> Seq<char> {
    match v {
        FieldValue::String(s) => s@,
        _ => Seq::empty(),
    }
}

/// What the written windows mean on the finished buffer, where the string
/// pool sits at `base`: the window bytes themselves, and for indirect text
/// the pooled bytes the stored offset points at.
pub open spec fn spec_written_window_zero(
    buf: Seq<u8>,
    offset: int,
    v: FieldValue,
    f: Field,
    o: IoOptions,
    base: int,
) -> bool {
    match f.field_type {
        FieldType::Long | FieldType::UnsignedLong => v matches FieldValue::Int(n) && buf.subrange(
            offset,
            offset + 4,
        ) == u32_bytes(spec_combine32(0, f.mask, f.shift, n), o.big_endian),
        FieldType::Float => v matches FieldValue::Float(bits) && buf.subrange(offset, offset + 4)
            == u32_bytes(bits, o.big_endian),
        FieldType::Short => v matches FieldValue::Int(n) && buf.subrange(offset, offset + 2)
            == u16_bytes(spec_combine16(0, f.mask, f.shift, n), o.big_endian),
        FieldType::Char => v matches FieldValue::Int(n) && buf[offset] == spec_combine8(
            0,
            f.mask,
            f.shift,
            n,
        ),
        FieldType::String => v matches FieldValue::String(s) && {
            let eb = spec_enc_bytes(o.encoding, s@);
            let l: int = if eb.len() < 32 {
                eb.len() as int
            } else {
                32
            };
            &&& buf.subrange(offset, offset + l) == eb.take(l)
            &&& (forall|i: int| offset + l <= i < offset + 32 ==> buf[i] == 0)
        },
        FieldType::StringOffset => v matches FieldValue::String(s) && {
            let eb = spec_enc_bytes(o.encoding, s@);
            let so = spec_read_u32(buf, offset, o.big_endian) as int;
            &&& base + so + eb.len() + 1 <= buf.len()
            &&& buf.subrange(base + so, base + so + eb.len()) == eb
            &&& buf[base + so + eb.len()] == 0
        },
    }
}

/// Carry the row-image claims onto the finished buffer: appending the pool
/// and the padding leaves the image bytes alone, and the dedup bookkeeping
/// pins each stored pool offset to its text's bytes.
#[verifier::rlimit(100)]
proof fn lemma_final_claims(
    rows_image: Seq<u8>,
    pool: Seq<u8>,
    buf: Seq<u8>,
    laid: Seq<Field>,
    entries: Seq<Entry>,
    o: IoOptions,
    dedup: Seq<(String, u32)>,
    od: int,
    rs: int,
    base: int,
)
    requires
        rows_image.len() == base,
        16 <= od <= base,
        0 <= rs,
        buf.len() >= base + pool.len(),
        buf.subrange(0, base + pool.len()) == rows_image + pool,
        spec_dedup_ok(dedup, pool, o.encoding),
        forall|k: int|
            0 <= k < laid.len() ==> (#[trigger] laid[k]).offset + spec_size(laid[k].field_type)
                <= rs,
        base == od + entries.len() * rs,
        forall|j2: int, k2: int|
            #![trigger entries[j2].spec_get(laid[k2].hash)]
            0 <= j2 < entries.len() && 0 <= k2 < laid.len() ==> match entries[j2].spec_get(
                laid[k2].hash,
            ) {
                Some(v) => spec_write_shape_ok(v, laid[k2]) && spec_written_window(
                    spec_zeros(base as nat),
                    rows_image,
                    od + j2 * rs + laid[k2].offset,
                    v,
                    laid[k2],
                    o,
                    dedup,
                ),
                None => (forall|i: int|
                    od + j2 * rs + laid[k2].offset <= i < od + j2 * rs + laid[k2].offset
                        + spec_size(laid[k2].field_type) ==> rows_image[i] == 0),
            },
    ensures
        spec_rows_encoded(laid, entries, o, buf, od, rs, base),
        spec_pool_dedup_exact(laid, entries, o, buf, od, rs),
{
    assert forall|i: int| 0 <= i < base implies buf[i] == rows_image[i] by {
        assert(buf.subrange(0, base + pool.len())[i] == (rows_image + pool)[i]);
        assert(buf.subrange(0, base + pool.len())[i] == buf[0 + i]);
        assert((rows_image + pool)[i] == rows_image[i]);
    }
    assert forall|i: int| 0 <= i < pool.len() implies buf[base + i] == pool[i] by {
        assert(buf.subrange(0, base + pool.len())[base + i] == (rows_image + pool)[base + i]);
        assert(buf.subrange(0, base + pool.len())[base + i] == buf[0 + (base + i)]);
        assert((rows_image + pool)[base + i] == pool[base + i - rows_image.len()]);
    }
    assert forall|j2: int, k2: int|
        #![trigger entries[j2].spec_get(laid[k2].hash)]
        0 <= j2 < entries.len() && 0 <= k2 < laid.len() implies match entries[j2].spec_get(
        laid[k2].hash,
    ) {
        Some(v) => spec_write_shape_ok(v, laid[k2]) && spec_written_window_zero(
            buf,
            od + j2 * rs + laid[k2].offset,
            v,
            laid[k2],
            o,
            base,
        ),
        None => (forall|i: int|
            od + j2 * rs + laid[k2].offset <= i < od + j2 * rs + laid[k2].offset + spec_size(
                laid[k2].field_type,
            ) ==> buf[i] == 0),
    } by {
        let slot = od + j2 * rs + laid[k2].offset;
        let sz = spec_size(laid[k2].field_type);
        assert((j2 + 1) * rs <= entries.len() * rs && (j2 + 1) * rs == j2 * rs + rs)
            by (nonlinear_arith)
            requires
                0 <= j2 < entries.len(),
                0 <= rs,
        ;
        assert(slot + sz <= base);
        match entries[j2].spec_get(laid[k2].hash) {
            Some(v) => {
                assert(spec_written_window(
                    spec_zeros(base as nat),
                    rows_image,
                    slot,
                    v,
                    laid[k2],
                    o,
                    dedup,
                ));
                lemma_window_zero_to_final(
                    rows_image,
                    pool,
                    buf,
                    slot,
                    v,
                    laid[k2],
                    o,
                    dedup,
                    base,
                );
            },
            None => {},
        }
    }
    assert forall|j1: int, k1: int, j2: int, k2: int|
        #![trigger entries[j1].spec_get(laid[k1].hash), entries[j2].spec_get(laid[k2].hash)]
        {
            &&& 0 <= j1 < entries.len() && 0 <= k1 < laid.len() && 0 <= j2 < entries.len() && 0
                <= k2 < laid.len()
            &&& laid[k1].field_type == FieldType::StringOffset
            &&& laid[k2].field_type == FieldType::StringOffset
            &&& entries[j1].spec_get(laid[k1].hash) matches Some(FieldValue::String(_))
            &&& entries[j2].spec_get(laid[k2].hash) matches Some(FieldValue::String(_))
        } implies {
        let t1 = spec_text_of(entries[j1].spec_get(laid[k1].hash).unwrap());
        let t2 = spec_text_of(entries[j2].spec_get(laid[k2].hash).unwrap());
        (spec_read_u32(buf, od + j1 * rs + laid[k1].offset, o.big_endian) == spec_read_u32(
            buf,
            od + j2 * rs + laid[k2].offset,
            o.big_endian,
        )) == (t1 == t2)
    } by {
        let slot1 = od + j1 * rs + laid[k1].offset;
        let slot2 = od + j2 * rs + laid[k2].offset;
        assert((j1 + 1) * rs <= entries.len() * rs && (j2 + 1) * rs <= entries.len() * rs && (j1
            + 1) * rs == j1 * rs + rs && (j2 + 1) * rs == j2 * rs + rs) by (nonlinear_arith)
            requires
                0 <= j1 < entries.len(),
                0 <= j2 < entries.len(),
                0 <= rs,
        ;
        let v1 = entries[j1].spec_get(laid[k1].hash).unwrap();
        let v2 = entries[j2].spec_get(laid[k2].hash).unwrap();
        let t1 = spec_text_of(v1);
        let t2 = spec_text_of(v2);
        assert(spec_written_window(spec_zeros(base as nat), rows_image, slot1, v1, laid[k1], o, dedup));
        assert(spec_written_window(spec_zeros(base as nat), rows_image, slot2, v2, laid[k2], o, dedup));
        let so1 = spec_dedup_lookup(dedup, t1).unwrap();
        let so2 = spec_dedup_lookup(dedup, t2).unwrap();
        assert(rows_image.subrange(slot1, slot1 + 4) == u32_bytes(so1, o.big_endian));
        assert(rows_image.subrange(slot2, slot2 + 4) == u32_bytes(so2, o.big_endian));
        assert(buf.subrange(slot1, slot1 + 4) =~= rows_image.subrange(slot1, slot1 + 4));
        assert(buf.subrange(slot2, slot2 + 4) =~= rows_image.subrange(slot2, slot2 + 4));
        crate::bytes::lemma_read_u32_of_window(buf, slot1, so1, o.big_endian);
        crate::bytes::lemma_read_u32_of_window(buf, slot2, so2, o.big_endian);
        lemma_dedup_lookup_injective(dedup, pool, o.encoding, t1, t2);
    }
    assert(spec_rows_encoded(laid, entries, o, buf, od, rs, base)) by {
        reveal(spec_rows_encoded);
    }
    assert(spec_pool_dedup_exact(laid, entries, o, buf, od, rs)) by {
        reveal(spec_pool_dedup_exact);
    }
}

/// Reading a word out of the all-zero image gives zero.
proof fn proof_read_zeros(n: nat, slot: int, be: bool)
    requires
        0 <= slot,
        slot + 4 <= n,
    ensures
        spec_read_u32(spec_zeros(n), slot, be) == 0,
{
    crate::bytes::lemma_read_u32_zero(spec_zeros(n), slot, be);
}

/// Reading a 16-bit word out of the all-zero image gives zero.
proof fn proof_read_zeros16(n: nat, slot: int, be: bool)
    requires
        0 <= slot,
        slot + 2 <= n,
    ensures
        spec_read_u16(spec_zeros(n), slot, be) == 0,
{
    crate::bytes::lemma_read_u16_zero(spec_zeros(n), slot, be);
}

/// One window's claims carry from the row image to the finished buffer.
proof fn lemma_window_zero_to_final(
    rows_image: Seq<u8>,
    pool: Seq<u8>,
    buf: Seq<u8>,
    slot: int,
    v: FieldValue,
    f: Field,
    o: IoOptions,
    dedup: Seq<(String, u32)>,
    base: int,
)
    requires
        rows_image.len() == base,
        0 <= slot,
        slot + spec_size(f.field_type) <= base,
        buf.len() >= base + pool.len(),
        buf.subrange(0, base + pool.len()) == rows_image + pool,
        spec_dedup_ok(dedup, pool, o.encoding),
        spec_written_window(spec_zeros(base as nat), rows_image, slot, v, f, o, dedup),
    ensures
        spec_written_window_zero(buf, slot, v, f, o, base),
{
    assert forall|i: int| 0 <= i < base implies buf[i] == rows_image[i] by {
        assert(buf.subrange(0, base + pool.len())[i] == (rows_image + pool)[i]);
        assert(buf.subrange(0, base + pool.len())[i] == buf[0 + i]);
        assert((rows_image + pool)[i] == rows_image[i]);
    }
    assert forall|i: int| 0 <= i < pool.len() implies buf[base + i] == pool[i] by {
        assert(buf.subrange(0, base + pool.len())[base + i] == (rows_image + pool)[base + i]);
        assert(buf.subrange(0, base + pool.len())[base + i] == buf[0 + (base + i)]);
        assert((rows_image + pool)[base + i] == pool[base + i - rows_image.len()]);
    }
    let sz = spec_size(f.field_type);
    assert(buf.subrange(slot, slot + sz) =~= rows_image.subrange(slot, slot + sz));
    match f.field_type {
        FieldType::Long | FieldType::UnsignedLong => {
            proof_read_zeros(base as nat, slot, o.big_endian);
            assert(buf.subrange(slot, slot + 4) =~= rows_image.subrange(slot, slot + 4));
        },
        FieldType::Float => {
            assert(buf.subrange(slot, slot + 4) =~= rows_image.subrange(slot, slot + 4));
        },
        FieldType::Short => {
            proof_read_zeros16(base as nat, slot, o.big_endian);
            assert(buf.subrange(slot, slot + 2) =~= rows_image.subrange(slot, slot + 2));
        },
        FieldType::Char => {},
        FieldType::String => {
            match v {
                FieldValue::String(s) => {
                    let eb = spec_enc_bytes(o.encoding, s@);
                    let l: int = if eb.len() < 32 {
                        eb.len() as int
                    } else {
                        32
                    };
                    assert(buf.subrange(slot, slot + l) =~= rows_image.subrange(slot, slot + l));
                },
                _ => {},
            }
        },
        FieldType::StringOffset => {
            match v {
                FieldValue::String(s) => {
                    let eb = spec_enc_bytes(o.encoding, s@);
                    let so = spec_dedup_lookup(dedup, s@).unwrap();
                    assert(rows_image.subrange(slot, slot + 4) == u32_bytes(so, o.big_endian));
                    assert(buf.subrange(slot, slot + 4) =~= rows_image.subrange(slot, slot + 4));
                    crate::bytes::lemma_read_u32_of_window(buf, slot, so, o.big_endian);
                    lemma_dedup_lookup_names(dedup, s@);
                    let m = choose|m: int|
                        0 <= m < dedup.len() && (#[trigger] dedup[m]).0@ == s@ && Some(dedup[m].1)
                            == spec_dedup_lookup(dedup, s@);
                    assert(pool.subrange(so as int, so + eb.len()) == eb);
                    assert(buf.subrange(base + so, base + so + eb.len()) =~= pool.subrange(
                        so as int,
                        so + eb.len(),
                    ));
                    assert(buf[base + so + eb.len()] == pool[so + eb.len()]);
                },
                _ => {},
            }
        },
    }
}

} // verus!
