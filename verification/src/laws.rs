//! Round-trip laws: what decoding gives back of what encoding wrote, stated
//! over the same spec functions the codec's contracts use.

use vstd::prelude::*;
use vstd::utf8::{decode_utf8, encode_utf8, valid_utf8};
use crate::bytes::{
    lemma_read_u16_of_window, lemma_read_u32_of_window, spec_read_u16, spec_read_u32, u16_bytes,
    u32_bytes,
};
use crate::field::{spec_from_raw, spec_type_code, Field};
use crate::io::{
    spec_combine16, spec_combine32, spec_combine8, spec_dec_chars, spec_dec_ok, spec_enc_bytes,
    spec_extract_char, spec_extract_long, spec_extract_short, spec_field_record, Encoding,
};

verus! {

/// A value wrapped to sixteen bits, read back as a signed 32-bit number: the
/// width-appropriate truncation and sign extension a 16-bit field applies.
pub open spec fn spec_wrap16(v: i32) -> i32 {
    if (v % 0x10000 + 0x10000) % 0x10000 >= 0x8000 {
        (((v % 0x10000 + 0x10000) % 0x10000) - 0x10000) as i32
    } else {
        ((v % 0x10000 + 0x10000) % 0x10000) as i32
    }
}

/// A value wrapped to eight bits, read back as a signed 32-bit number.
pub open spec fn spec_wrap8(v: i32) -> i32 {
    if (v % 0x100 + 0x100) % 0x100 >= 0x80 {
        (((v % 0x100 + 0x100) % 0x100) - 0x100) as i32
    } else {
        ((v % 0x100 + 0x100) % 0x100) as i32
    }
}

/// Packing an integer into a zeroed 32-bit word under the full-width mask and
/// zero shift, then extracting it, gives the value back exactly.
pub proof fn lemma_long_round_trip(v: i32)
    ensures
        spec_extract_long(spec_combine32(0, 0xFFFFFFFF, 0, v), 0xFFFFFFFF, 0) == v,
{
    let u = crate::io::spec_to_unsigned32(v);
    assert((((0u32 & !0xFFFFFFFFu32) | ((u << 0u8) & 0xFFFFFFFFu32)) & 0xFFFFFFFFu32) >> 0u8
        == u) by (bit_vector);
    if v < 0 {
        assert(u == (v + 0x100000000) as u32);
        assert(u >= 0x80000000) by (bit_vector)
            requires
                u == (v + 0x100000000) as u32 && v < 0,
        ;
    } else {
        assert(u == v as u32);
        assert(u < 0x80000000) by (bit_vector)
            requires
                u == v as u32 && v >= 0,
        ;
    }
}

/// Packing an integer into a zeroed 16-bit word under the default mask and
/// zero shift, then extracting it, gives the value truncated to sixteen bits
/// and sign-extended; a value already in 16-bit range comes back exactly.
pub proof fn lemma_short_round_trip(v: i32)
    ensures
        spec_extract_short(spec_combine16(0, 0x0000FFFF, 0, v), 0x0000FFFF, 0) == spec_wrap16(v),
        -0x8000 <= v < 0x8000 ==> spec_extract_short(spec_combine16(0, 0x0000FFFF, 0, v), 0x0000FFFF, 0)
            == v,
{
    let u = crate::io::spec_to_unsigned32(v);
    let w = spec_combine16(0, 0x0000FFFF, 0, v);
    let m = ((w as u32) & 0x0000FFFFu32) >> 0u8;
    assert(w == ((((0u32) & !0x0000FFFFu32) | ((u << 0u8) & 0x0000FFFFu32)) & 0xFFFF) as u16);
    if v < 0 {
        assert(u == (v + 0x100000000) as u32);
        assert(m == (w as u32) && w == (u & 0xFFFF) as u16) by (bit_vector)
            requires
                w == ((((0u32) & !0x0000FFFFu32) | ((u << 0u8) & 0x0000FFFFu32)) & 0xFFFF) as u16
                    && m == ((w as u32) & 0x0000FFFFu32) >> 0u8,
        ;
        assert(m & 0x8000 != 0 ==> (m | 0xFFFF0000u32) >= 0x80000000) by (bit_vector);
        assert((m == ((((v + 0x100000000) as u32) & 0xFFFF) as u16) as u32 && (if m & 0x8000 != 0 {
            ((m | 0xFFFF0000u32) as int) - 0x100000000
        } else {
            m as int
        }) == (if (v % 0x10000 + 0x10000) % 0x10000 >= 0x8000 {
            ((v % 0x10000 + 0x10000) % 0x10000) - 0x10000
        } else {
            (v % 0x10000 + 0x10000) % 0x10000
        })) ) by (bit_vector)
            requires
                m == ((((v + 0x100000000) as u32) & 0xFFFF) as u16) as u32 && v < 0,
        ;
    } else {
        assert(u == v as u32);
        assert(m == (w as u32) && w == (u & 0xFFFF) as u16) by (bit_vector)
            requires
                w == ((((0u32) & !0x0000FFFFu32) | ((u << 0u8) & 0x0000FFFFu32)) & 0xFFFF) as u16
                    && m == ((w as u32) & 0x0000FFFFu32) >> 0u8,
        ;
        assert((m == (((v as u32) & 0xFFFF) as u16) as u32 && (if m & 0x8000 != 0 {
            ((m | 0xFFFF0000u32) as int) - 0x100000000
        } else {
            m as int
        }) == (if (v % 0x10000 + 0x10000) % 0x10000 >= 0x8000 {
            ((v % 0x10000 + 0x10000) % 0x10000) - 0x10000
        } else {
            (v % 0x10000 + 0x10000) % 0x10000
        })) ) by (bit_vector)
            requires
                m == (((v as u32) & 0xFFFF) as u16) as u32 && v >= 0,
        ;
    }
}

/// Packing an integer into a zeroed 8-bit word under the default mask and
/// zero shift, then extracting it, gives the value truncated to eight bits
/// and sign-extended; a value already in 8-bit range comes back exactly.
pub proof fn lemma_char_round_trip(v: i32)
    ensures
        spec_extract_char(spec_combine8(0, 0x000000FF, 0, v), 0x000000FF, 0) == spec_wrap8(v),
        -0x80 <= v < 0x80 ==> spec_extract_char(spec_combine8(0, 0x000000FF, 0, v), 0x000000FF, 0)
            == v,
{
    let u = crate::io::spec_to_unsigned32(v);
    let w = spec_combine8(0, 0x000000FF, 0, v);
    let m = ((w as u32) & 0x000000FFu32) >> 0u8;
    assert(w == ((((0u32) & !0x000000FFu32) | ((u << 0u8) & 0x000000FFu32)) & 0xFF) as u8);
    if v < 0 {
        assert(u == (v + 0x100000000) as u32);
        assert(m == (w as u32) && w == (u & 0xFF) as u8) by (bit_vector)
            requires
                w == ((((0u32) & !0x000000FFu32) | ((u << 0u8) & 0x000000FFu32)) & 0xFF) as u8 && m
                    == ((w as u32) & 0x000000FFu32) >> 0u8,
        ;
        assert((m == ((((v + 0x100000000) as u32) & 0xFF) as u8) as u32 && (if m & 0x80 != 0 {
            ((m | 0xFFFFFF00u32) as int) - 0x100000000
        } else {
            m as int
        }) == (if (v % 0x100 + 0x100) % 0x100 >= 0x80 {
            ((v % 0x100 + 0x100) % 0x100) - 0x100
        } else {
            (v % 0x100 + 0x100) % 0x100
        })) ) by (bit_vector)
            requires
                m == ((((v + 0x100000000) as u32) & 0xFF) as u8) as u32 && v < 0,
        ;
        assert(m & 0x80 != 0 ==> (m | 0xFFFFFF00u32) >= 0x80000000) by (bit_vector);
    } else {
        assert(u == v as u32);
        assert(m == (w as u32) && w == (u & 0xFF) as u8) by (bit_vector)
            requires
                w == ((((0u32) & !0x000000FFu32) | ((u << 0u8) & 0x000000FFu32)) & 0xFF) as u8 && m
                    == ((w as u32) & 0x000000FFu32) >> 0u8,
        ;
        assert((m == (((v as u32) & 0xFF) as u8) as u32 && (if m & 0x80 != 0 {
            ((m | 0xFFFFFF00u32) as int) - 0x100000000
        } else {
            m as int
        }) == (if (v % 0x100 + 0x100) % 0x100 >= 0x80 {
            ((v % 0x100 + 0x100) % 0x100) - 0x100
        } else {
            (v % 0x100 + 0x100) % 0x100
        })) ) by (bit_vector)
            requires
                m == (((v as u32) & 0xFF) as u8) as u32 && v >= 0,
        ;
        assert(m & 0x80 != 0 ==> (m | 0xFFFFFF00u32) >= 0x80000000) by (bit_vector);
    }
}

/// A field's directory record decodes back to the same field: the hash, mask,
/// row offset and shift read back exactly, and the type code maps back to the
/// same type.
pub proof fn lemma_field_record_round_trip(f: Field, bytes: Seq<u8>, off: int, be: bool)
    requires
        0 <= off,
        off + 12 <= bytes.len(),
        bytes.subrange(off, off + 12) == spec_field_record(f, be),
    ensures
        spec_read_u32(bytes, off, be) == f.hash,
        spec_read_u32(bytes, off + 4, be) == f.mask,
        spec_read_u16(bytes, off + 8, be) == f.offset,
        bytes[off + 10] == f.shift,
        spec_from_raw(bytes[off + 11]) == Some(f.field_type),
{
    let rec = spec_field_record(f, be);
    let a = u32_bytes(f.hash, be);
    let b = u32_bytes(f.mask, be);
    let c = u16_bytes(f.offset, be);
    let d = seq![f.shift, spec_type_code(f.field_type)];
    assert(a.len() == 4 && b.len() == 4 && c.len() == 2 && d.len() == 2);
    assert(rec == a + b + c + d);
    assert forall|i: int| 0 <= i < 12 implies bytes[off + i] == rec[i] by {
        assert(bytes.subrange(off, off + 12)[i] == rec[i]);
    }
    assert forall|i: int| 0 <= i < 4 implies rec[i] == a[i] && rec[4 + i] == b[i] by {
        assert((a + b + c + d)[i] == a[i]);
        assert((a + b + c + d)[4 + i] == b[i]);
    }
    assert forall|i: int| 0 <= i < 2 implies rec[8 + i] == c[i] && rec[10 + i] == d[i] by {
        assert((a + b + c + d)[8 + i] == c[i]);
        assert((a + b + c + d)[10 + i] == d[i]);
    }
    assert(bytes.subrange(off, off + 4) =~= u32_bytes(f.hash, be));
    lemma_read_u32_of_window(bytes, off, f.hash, be);
    assert(bytes.subrange(off + 4, off + 8) =~= u32_bytes(f.mask, be));
    lemma_read_u32_of_window(bytes, off + 4, f.mask, be);
    assert(bytes.subrange(off + 8, off + 10) =~= u16_bytes(f.offset, be));
    lemma_read_u16_of_window(bytes, off + 8, f.offset, be);
    assert(bytes[off + 10] == rec[10] && rec[10] == f.shift);
    assert(bytes[off + 11] == rec[11] && rec[11] == spec_type_code(f.field_type));
    crate::field::lemma_type_code_round_trip(f.field_type);
}

/// UTF-8 text written by the encoder decodes back to the same characters:
/// the byte-level text round trip the codec's string handling rests on.
pub proof fn lemma_utf8_text_round_trip(s: Seq<char>)
    ensures
        spec_dec_ok(Encoding::Utf8, spec_enc_bytes(Encoding::Utf8, s)),
        spec_dec_chars(Encoding::Utf8, spec_enc_bytes(Encoding::Utf8, s)) == s,
{
    broadcast use vstd::utf8::encode_utf8_valid_utf8;
    broadcast use vstd::utf8::encode_utf8_decode_utf8;

}

/// An encoded 32-bit integer slot decodes back to the written value: reading
/// the slot's word and extracting under the default mask undoes the packing.
pub proof fn lemma_long_window_round_trip(buf: Seq<u8>, slot: int, v: i32, be: bool)
    requires
        0 <= slot,
        slot + 4 <= buf.len(),
        buf.subrange(slot, slot + 4) == u32_bytes(spec_combine32(0, 0xFFFFFFFF, 0, v), be),
    ensures
        spec_extract_long(spec_read_u32(buf, slot, be), 0xFFFFFFFF, 0) == v,
{
    lemma_read_u32_of_window(buf, slot, spec_combine32(0, 0xFFFFFFFF, 0, v), be);
    lemma_long_round_trip(v);
}

/// An encoded 16-bit integer slot decodes back to the written value wrapped
/// to sixteen bits; a value in 16-bit range comes back exactly.
pub proof fn lemma_short_window_round_trip(buf: Seq<u8>, slot: int, v: i32, be: bool)
    requires
        0 <= slot,
        slot + 2 <= buf.len(),
        buf.subrange(slot, slot + 2) == u16_bytes(spec_combine16(0, 0x0000FFFF, 0, v), be),
    ensures
        spec_extract_short(spec_read_u16(buf, slot, be), 0x0000FFFF, 0) == spec_wrap16(v),
        -0x8000 <= v < 0x8000 ==> spec_extract_short(spec_read_u16(buf, slot, be), 0x0000FFFF, 0)
            == v,
{
    lemma_read_u16_of_window(buf, slot, spec_combine16(0, 0x0000FFFF, 0, v), be);
    lemma_short_round_trip(v);
}

/// An encoded float slot decodes back to the same bit pattern.
pub proof fn lemma_float_window_round_trip(buf: Seq<u8>, slot: int, bits: u32, be: bool)
    requires
        0 <= slot,
        slot + 4 <= buf.len(),
        buf.subrange(slot, slot + 4) == u32_bytes(bits, be),
    ensures
        spec_read_u32(buf, slot, be) == bits,
{
    lemma_read_u32_of_window(buf, slot, bits, be);
}

} // verus!
