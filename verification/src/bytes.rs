//! On-wire integer encoding: 16- and 32-bit words as big- or little-endian
//! byte sequences, with the round-trip facts the codec needs.

use vstd::prelude::*;

verus! {

/// The two bytes of `v`, most significant first when `be` is set.
pub open spec fn u16_bytes(v: u16, be: bool) -> Seq<u8> {
    if be {
        seq![(v >> 8) as u8, v as u8]
    } else {
        seq![v as u8, (v >> 8) as u8]
    }
}

/// The four bytes of `v`, most significant first when `be` is set.
pub open spec fn u32_bytes(v: u32, be: bool) -> Seq<u8> {
    if be {
        seq![(v >> 24) as u8, (v >> 16) as u8, (v >> 8) as u8, v as u8]
    } else {
        seq![v as u8, (v >> 8) as u8, (v >> 16) as u8, (v >> 24) as u8]
    }
}

/// The 16-bit word stored at `off` in `bytes`.
pub open spec fn spec_read_u16(bytes: Seq<u8>, off: int, be: bool) -> u16
    recommends
        0 <= off,
        off + 2 <= bytes.len(),
{
    if be {
        ((bytes[off] as u16) << 8) | (bytes[off + 1] as u16)
    } else {
        ((bytes[off + 1] as u16) << 8) | (bytes[off] as u16)
    }
}

/// The 32-bit word stored at `off` in `bytes`.
pub open spec fn spec_read_u32(bytes: Seq<u8>, off: int, be: bool) -> u32
    recommends
        0 <= off,
        off + 4 <= bytes.len(),
{
    if be {
        ((bytes[off] as u32) << 24) | ((bytes[off + 1] as u32) << 16) | ((bytes[off + 2] as u32)
            << 8) | (bytes[off + 3] as u32)
    } else {
        ((bytes[off + 3] as u32) << 24) | ((bytes[off + 2] as u32) << 16) | ((bytes[off + 1] as u32)
            << 8) | (bytes[off] as u32)
    }
}

/// Reading back the two bytes of a word yields the word.
pub proof fn lemma_u16_round_trip(v: u16, be: bool)
    ensures
        u16_bytes(v, be).len() == 2,
        spec_read_u16(u16_bytes(v, be), 0, be) == v,
{
    assert((((v >> 8) as u8) as u16) << 8 | ((v as u8) as u16) == v) by (bit_vector);
}

/// Reading back the four bytes of a word yields the word.
pub proof fn lemma_u32_round_trip(v: u32, be: bool)
    ensures
        u32_bytes(v, be).len() == 4,
        spec_read_u32(u32_bytes(v, be), 0, be) == v,
{
    assert((((v >> 24) as u8) as u32) << 24 | (((v >> 16) as u8) as u32) << 16 | (((v
        >> 8) as u8) as u32) << 8 | ((v as u8) as u32) == v) by (bit_vector);
}

/// Reading a word looks only at the bytes of its window.
pub proof fn lemma_read_u32_depends_on_window(b1: Seq<u8>, b2: Seq<u8>, off: int, be: bool)
    requires
        0 <= off,
        off + 4 <= b1.len(),
        off + 4 <= b2.len(),
        b1.subrange(off, off + 4) == b2.subrange(off, off + 4),
    ensures
        spec_read_u32(b1, off, be) == spec_read_u32(b2, off, be),
{
    let s1 = b1.subrange(off, off + 4);
    let s2 = b2.subrange(off, off + 4);
    assert(b1[off] == s1[0] && b1[off + 1] == s1[1] && b1[off + 2] == s1[2] && b1[off + 3] == s1[3]);
    assert(b2[off] == s2[0] && b2[off + 1] == s2[1] && b2[off + 2] == s2[2] && b2[off + 3] == s2[3]);
}

/// The word read at `off` from a buffer whose window holds `u32_bytes(v, be)` is `v`.
pub proof fn lemma_read_u32_of_window(bytes: Seq<u8>, off: int, v: u32, be: bool)
    requires
        0 <= off,
        off + 4 <= bytes.len(),
        bytes.subrange(off, off + 4) == u32_bytes(v, be),
    ensures
        spec_read_u32(bytes, off, be) == v,
{
    let w = bytes.subrange(off, off + 4);
    assert(bytes[off] == w[0] && bytes[off + 1] == w[1] && bytes[off + 2] == w[2] && bytes[off + 3]
        == w[3]);
    lemma_u32_round_trip(v, be);
}

/// The word read at `off` from a buffer whose window holds `u16_bytes(v, be)` is `v`.
pub proof fn lemma_read_u16_of_window(bytes: Seq<u8>, off: int, v: u16, be: bool)
    requires
        0 <= off,
        off + 2 <= bytes.len(),
        bytes.subrange(off, off + 2) == u16_bytes(v, be),
    ensures
        spec_read_u16(bytes, off, be) == v,
{
    let w = bytes.subrange(off, off + 2);
    assert(bytes[off] == w[0] && bytes[off + 1] == w[1]);
    lemma_u16_round_trip(v, be);
}

/// Read the 16-bit word at `off`.
pub fn get_u16(data: &[u8], off: usize, be: bool) -> (r: u16)
    requires
        off + 2 <= data.len(),
    ensures
        r == spec_read_u16(data@, off as int, be),
{
    let b0 = data[off];
    let b1 = data[off + 1];
    if be {
        ((b0 as u16) << 8) | (b1 as u16)
    } else {
        ((b1 as u16) << 8) | (b0 as u16)
    }
}

/// Read the 32-bit word at `off`.
pub fn get_u32(data: &[u8], off: usize, be: bool) -> (r: u32)
    requires
        off + 4 <= data.len(),
    ensures
        r == spec_read_u32(data@, off as int, be),
{
    let b0 = data[off];
    let b1 = data[off + 1];
    let b2 = data[off + 2];
    let b3 = data[off + 3];
    if be {
        ((b0 as u32) << 24) | ((b1 as u32) << 16) | ((b2 as u32) << 8) | (b3 as u32)
    } else {
        ((b3 as u32) << 24) | ((b2 as u32) << 16) | ((b1 as u32) << 8) | (b0 as u32)
    }
}

/// Write the two bytes of `v` at `off`, leaving every other byte alone.
pub fn put_u16(buf: &mut Vec<u8>, off: usize, v: u16, be: bool)
    requires
        off + 2 <= old(buf).len(),
    ensures
        final(buf)@.len() == old(buf)@.len(),
        final(buf)@.subrange(off as int, off + 2) == u16_bytes(v, be),
        forall|i: int|
            0 <= i < old(buf)@.len() && !(off <= i < off + 2) ==> final(buf)@[i] == old(buf)@[i],
{
    let hi = #[verifier::truncate] ((v >> 8) as u8);
    let lo = #[verifier::truncate] (v as u8);
    if be {
        buf.set(off, hi);
        buf.set(off + 1, lo);
    } else {
        buf.set(off, lo);
        buf.set(off + 1, hi);
    }
    assert(final(buf)@.subrange(off as int, off + 2) =~= u16_bytes(v, be));
}

/// Write the four bytes of `v` at `off`, leaving every other byte alone.
pub fn put_u32(buf: &mut Vec<u8>, off: usize, v: u32, be: bool)
    requires
        off + 4 <= old(buf).len(),
    ensures
        final(buf)@.len() == old(buf)@.len(),
        final(buf)@.subrange(off as int, off + 4) == u32_bytes(v, be),
        forall|i: int|
            0 <= i < old(buf)@.len() && !(off <= i < off + 4) ==> final(buf)@[i] == old(buf)@[i],
{
    let b3 = #[verifier::truncate] ((v >> 24) as u8);
    let b2 = #[verifier::truncate] ((v >> 16) as u8);
    let b1 = #[verifier::truncate] ((v >> 8) as u8);
    let b0 = #[verifier::truncate] (v as u8);
    if be {
        buf.set(off, b3);
        buf.set(off + 1, b2);
        buf.set(off + 2, b1);
        buf.set(off + 3, b0);
    } else {
        buf.set(off, b0);
        buf.set(off + 1, b1);
        buf.set(off + 2, b2);
        buf.set(off + 3, b3);
    }
    assert(final(buf)@.subrange(off as int, off + 4) =~= u32_bytes(v, be));
}

/// A word read from an all-zero window is zero.
pub proof fn lemma_read_u32_zero(bytes: Seq<u8>, off: int, be: bool)
    requires
        0 <= off,
        off + 4 <= bytes.len(),
        forall|i: int| off <= i < off + 4 ==> #[trigger] bytes[i] == 0,
    ensures
        spec_read_u32(bytes, off, be) == 0,
{
    assert(bytes[off] == 0 && bytes[off + 1] == 0 && bytes[off + 2] == 0 && bytes[off + 3] == 0);
    assert(((0u8 as u32) << 24) | ((0u8 as u32) << 16) | ((0u8 as u32) << 8) | (0u8 as u32) == 0)
        by (bit_vector);
}

/// A 16-bit word read from an all-zero window is zero.
pub proof fn lemma_read_u16_zero(bytes: Seq<u8>, off: int, be: bool)
    requires
        0 <= off,
        off + 2 <= bytes.len(),
        forall|i: int| off <= i < off + 2 ==> #[trigger] bytes[i] == 0,
    ensures
        spec_read_u16(bytes, off, be) == 0,
{
    assert(bytes[off] == 0 && bytes[off + 1] == 0);
    assert(((0u8 as u16) << 8) | (0u8 as u16) == 0) by (bit_vector);
}

} // verus!
