//! Text utilities and the boundary to the byte-level text encodings.

use vstd::prelude::*;
use vstd::string::*;
use vstd::utf8::*;

verus! {

broadcast use vstd::utf8::encode_utf8_decode_utf8;

/// Character-for-character string equality, decided over the UTF-8 bytes:
/// the encoding is injective, so byte equality decides view equality.
pub fn str_eq(a: &str, b: &str) -> (r: bool)
    ensures
        r == (a@ == b@),
{
    let ab = a.as_bytes();
    let bb = b.as_bytes();
    if ab.len() != bb.len() {
        assert(a@ != b@) by {
            if a@ == b@ {
                assert(encode_utf8(a@) == encode_utf8(b@));
            }
        }
        return false;
    }
    let mut i: usize = 0;
    while i < ab.len()
        invariant
            i <= ab@.len(),
            ab@.len() == bb@.len(),
            ab@ == a.spec_bytes(),
            bb@ == b.spec_bytes(),
            forall|j: int| 0 <= j < i ==> ab@[j] == bb@[j],
        decreases ab@.len() - i,
    {
        if ab[i] != bb[i] {
            assert(a@ != b@) by {
                if a@ == b@ {
                    assert(encode_utf8(a@) == encode_utf8(b@));
                }
            }
            return false;
        }
        i = i + 1;
    }
    proof {
        assert(a.spec_bytes() =~= b.spec_bytes());
        assert(decode_utf8(encode_utf8(a@)) == a@);
        assert(decode_utf8(encode_utf8(b@)) == b@);
    }
    true
}

/// What encoding_rs's Shift-JIS decoder yields for a byte sequence: a pure
/// function of the bytes (malformed sequences become replacement characters,
/// deterministically).
pub uninterp spec fn sjis_chars_of(bytes: Seq<u8>) -> Seq<char>;

/// What encoding_rs's Shift-JIS encoder yields for a character sequence: a
/// pure function of the characters (unmappable characters become numeric
/// character references, deterministically).
pub uninterp spec fn sjis_bytes_of(chars: Seq<char>) -> Seq<u8>;

/// Relies on encoding_rs's `SHIFT_JIS.decode`: the result depends on the
/// bytes alone, and ASCII-only input (no byte-order-mark byte is ASCII) is
/// passed through byte for byte. The input bound keeps the call's
/// backing-buffer size calculation (at most a few bytes per input byte) from
/// overflowing even a 32-bit machine's word, which its documentation names
/// as its one panic.
#[verifier::external_body]
pub fn sjis_decode(bytes: &[u8]) -> (r: String)
    requires
        bytes@.len() <= 0x10000000,
    ensures
        r@ == sjis_chars_of(bytes@),
        (forall|i: int| 0 <= i < bytes@.len() ==> bytes@[i] < 0x80) ==> r@ == bytes@.map(
            |i: int, b: u8| b as char,
        ),
{
    let (decoded, _, _) = encoding_rs::SHIFT_JIS.decode(bytes);
    decoded.into_owned()
}

/// Relies on encoding_rs's `SHIFT_JIS.encode`: the result depends on the
/// characters alone; ASCII-only input is passed through character for
/// character; and only the NUL character encodes a zero byte (two-byte
/// sequences use lead bytes 0x81-0xFC and trail bytes 0x40-0xFC, and numeric
/// character references are ASCII punctuation and digits). The input bound
/// keeps the call's backing-buffer size calculation (at most about a dozen
/// bytes per input byte, for numeric character references) from overflowing
/// even a 32-bit machine's word, which its documentation names as its one
/// panic.
#[verifier::external_body]
pub fn sjis_encode(s: &str) -> (r: Vec<u8>)
    requires
        s.spec_bytes().len() <= 0x8000000,
    ensures
        r@ == sjis_bytes_of(s@),
        is_ascii_chars(s@) ==> r@ == s@.map(|i: int, c: char| c as u8),
        (forall|i: int| 0 <= i < s@.len() ==> s@[i] != '\0') ==> (forall|j: int|
            0 <= j < r@.len() ==> r@[j] != 0),
        s@.len() == 0 ==> r@.len() == 0,
{
    let (encoded, _, _) = encoding_rs::SHIFT_JIS.encode(s);
    encoded.into_owned()
}

/// Relies on `String::from_utf8`: it succeeds exactly on valid UTF-8 input
/// and returns a string whose bytes are that input.
#[verifier::external_body]
pub fn utf8_decode(bytes: Vec<u8>) -> (r: Option<String>)
    ensures
        r is Some <==> valid_utf8(bytes@),
        r matches Some(s) ==> s@ == decode_utf8(bytes@),
{
    match String::from_utf8(bytes) {
        Ok(s) => Some(s),
        Err(_) => None,
    }
}

/// The UTF-8 encoding of a NUL-free character sequence holds no zero byte:
/// one-byte sequences are the character itself, longer sequences use bytes
/// at or above 0x80.
pub proof fn lemma_utf8_nul_free(chars: Seq<char>)
    requires
        forall|i: int| 0 <= i < chars.len() ==> chars[i] != '\0',
    ensures
        forall|j: int| 0 <= j < encode_utf8(chars).len() ==> encode_utf8(chars)[j] != 0,
    decreases chars.len(),
{
    if chars.len() > 0 {
        let c = chars[0] as u32;
        let head = encode_scalar(c);
        let tail = encode_utf8(chars.drop_first());
        assert(encode_utf8(chars) == head + tail);
        lemma_utf8_nul_free(chars.drop_first());
        vstd::utf8::char_is_scalar(chars[0]);
        assert(c != 0) by {
            if c == 0 {
                vstd::utf8::char_u32_cast(chars[0], c);
                assert((0u32 as char) == '\0');
            }
        }
        assert forall|j: int| 0 <= j < head.len() implies head[j] != 0 by {
            if c < 0x80 {
                assert(head =~= seq![leading_byte_width_1(c)]);
                assert(leading_byte_width_1(c) != 0) by (bit_vector)
                    requires
                        c != 0 && c < 0x80,
                ;
            } else if c < 0x800 {
                assert(head =~= seq![leading_byte_width_2(c), last_continuation_byte(c)]);
                assert(leading_byte_width_2(c) != 0 && last_continuation_byte(c) != 0) by (bit_vector);
            } else if c < 0x10000 {
                assert(head =~= seq![
                    leading_byte_width_3(c),
                    second_last_continuation_byte(c),
                    last_continuation_byte(c),
                ]);
                assert(leading_byte_width_3(c) != 0 && second_last_continuation_byte(c) != 0
                    && last_continuation_byte(c) != 0) by (bit_vector);
            } else {
                assert(head =~= seq![
                    leading_byte_width_4(c),
                    third_last_continuation_byte(c),
                    second_last_continuation_byte(c),
                    last_continuation_byte(c),
                ]);
                assert(leading_byte_width_4(c) != 0 && third_last_continuation_byte(c) != 0
                    && second_last_continuation_byte(c) != 0 && last_continuation_byte(c) != 0)
                    by (bit_vector);
            }
        }
        assert forall|j: int| 0 <= j < encode_utf8(chars).len() implies encode_utf8(chars)[j]
            != 0 by {
            if j >= head.len() {
                assert(encode_utf8(chars)[j] == tail[j - head.len()]);
            }
        }
    }
}

} // verus!
