//! Field-name hashing and the hash-to-name reverse lookup table.

use vstd::prelude::*;
use vstd::string::*;
use vstd::utf8::encode_utf8;
use std::collections::HashMap;

verus! {

broadcast use vstd::std_specs::hash::group_hash_axioms;

/// A byte sign-extended to 32 bits, as an unsigned bit pattern: bytes at or
/// above 0x80 contribute a negative two's-complement term to the hash.
pub open spec fn spec_hash_ext(b: u8) -> u32 {
    if b < 0x80 {
        b as u32
    } else {
        (b as u32) | 0xFFFFFF00u32
    }
}

/// One step of the hash fold: multiply by 31 and add the sign-extended byte,
/// both with 32-bit wraparound.
pub open spec fn spec_hash_step(h: u32, b: u8) -> u32 {
    vstd::wrapping::u32_specs::wrapping_add(
        vstd::wrapping::u32_specs::wrapping_mul(h, 31),
        spec_hash_ext(b),
    )
}

/// The hash of a byte sequence: the fold of `spec_hash_step` over the bytes,
/// left to right, starting from zero.
pub open spec fn spec_hash_bytes(bytes: Seq<u8>) -> u32
    decreases bytes.len(),
{
    if bytes.len() == 0 {
        0u32
    } else {
        spec_hash_step(spec_hash_bytes(bytes.drop_last()), bytes.last())
    }
}

/// The hash of a field name: the hash of its UTF-8 bytes.
pub open spec fn spec_calc_hash(name: Seq<char>) -> u32 {
    spec_hash_bytes(encode_utf8(name))
}

/// The hash function used by the BCSV consumers this library targets.
///
/// Folds `hash = hash * 31 + signed_byte` over the name's UTF-8 bytes with
/// 32-bit wraparound; each byte is first sign-extended as an 8-bit
/// two's-complement integer, so bytes at or above 0x80 contribute a negative
/// term.
pub fn calc_hash(field_name: &str) -> (r: u32)
    ensures
        r == spec_calc_hash(field_name@),
{
    let bytes = field_name.as_bytes_vec();
    let mut hash: u32 = 0;
    let mut i: usize = 0;
    while i < bytes.len()
        invariant
            i <= bytes@.len(),
            hash == spec_hash_bytes(bytes@.take(i as int)),
        decreases bytes@.len() - i,
    {
        let b = bytes[i];
        let ext: u32 = if b < 0x80 {
            b as u32
        } else {
            (b as u32) | 0xFFFFFF00u32
        };
        hash = hash.wrapping_mul(31).wrapping_add(ext);
        i = i + 1;
        proof {
            assert(bytes@.take(i as int).drop_last() =~= bytes@.take(i - 1));
            assert(bytes@.take(i as int).last() == b);
        }
    }
    proof {
        assert(bytes@.take(bytes@.len() as int) =~= bytes@);
    }
    hash
}

/// The hex digit character for a nibble value.
pub open spec fn spec_hex_digit(d: u32) -> char {
    if d == 0 {
        '0'
    } else if d == 1 {
        '1'
    } else if d == 2 {
        '2'
    } else if d == 3 {
        '3'
    } else if d == 4 {
        '4'
    } else if d == 5 {
        '5'
    } else if d == 6 {
        '6'
    } else if d == 7 {
        '7'
    } else if d == 8 {
        '8'
    } else if d == 9 {
        '9'
    } else if d == 10 {
        'A'
    } else if d == 11 {
        'B'
    } else if d == 12 {
        'C'
    } else if d == 13 {
        'D'
    } else if d == 14 {
        'E'
    } else {
        'F'
    }
}

/// The canonical fallback rendering of a hash nobody knows a name for:
/// a bracketed run of exactly eight uppercase hex digits.
pub open spec fn spec_fallback_name(h: u32) -> Seq<char> {
    seq![
        '[',
        spec_hex_digit((h >> 28) & 0xF),
        spec_hex_digit((h >> 24) & 0xF),
        spec_hex_digit((h >> 20) & 0xF),
        spec_hex_digit((h >> 16) & 0xF),
        spec_hex_digit((h >> 12) & 0xF),
        spec_hex_digit((h >> 8) & 0xF),
        spec_hex_digit((h >> 4) & 0xF),
        spec_hex_digit(h & 0xF),
        ']',
    ]
}

/// The single-character string for a hex digit value.
fn hex_digit_str(d: u32) -> (r: &'static str)
    requires
        d < 16,
    ensures
        r@ =~= seq![spec_hex_digit(d)],
{
    proof {
        reveal_strlit("0");
        reveal_strlit("1");
        reveal_strlit("2");
        reveal_strlit("3");
        reveal_strlit("4");
        reveal_strlit("5");
        reveal_strlit("6");
        reveal_strlit("7");
        reveal_strlit("8");
        reveal_strlit("9");
        reveal_strlit("A");
        reveal_strlit("B");
        reveal_strlit("C");
        reveal_strlit("D");
        reveal_strlit("E");
        reveal_strlit("F");
    }
    match d {
        0 => "0",
        1 => "1",
        2 => "2",
        3 => "3",
        4 => "4",
        5 => "5",
        6 => "6",
        7 => "7",
        8 => "8",
        9 => "9",
        10 => "A",
        11 => "B",
        12 => "C",
        13 => "D",
        14 => "E",
        _ => "F",
    }
}

/// Render a hash in the canonical bracketed-hex fallback form.
pub fn fallback_name_text(hash: u32) -> (r: String)
    ensures
        r@ == spec_fallback_name(hash),
{
    fallback_name_of(hash)
}

/// Render a hash in the canonical bracketed-hex fallback form.
fn fallback_name_of(hash: u32) -> (r: String)
    ensures
        r@ == spec_fallback_name(hash),
{
    proof {
        reveal_strlit("[");
        reveal_strlit("]");
    }
    let mut s = String::from_str("[");
    assert(s@ =~= spec_fallback_name(hash).take(1));
    let d1 = (hash >> 28) & 0xF;
    let d2 = (hash >> 24) & 0xF;
    let d3 = (hash >> 20) & 0xF;
    let d4 = (hash >> 16) & 0xF;
    let d5 = (hash >> 12) & 0xF;
    let d6 = (hash >> 8) & 0xF;
    let d7 = (hash >> 4) & 0xF;
    let d8 = hash & 0xF;
    assert(d1 < 16 && d2 < 16 && d3 < 16 && d4 < 16 && d5 < 16 && d6 < 16 && d7 < 16 && d8 < 16)
        by (bit_vector)
        requires
            d1 == (hash >> 28) & 0xF && d2 == (hash >> 24) & 0xF && d3 == (hash >> 20) & 0xF && d4
                == (hash >> 16) & 0xF && d5 == (hash >> 12) & 0xF && d6 == (hash >> 8) & 0xF && d7
                == (hash >> 4) & 0xF && d8 == hash & 0xF,
    ;
    s.append(hex_digit_str(d1));
    s.append(hex_digit_str(d2));
    s.append(hex_digit_str(d3));
    s.append(hex_digit_str(d4));
    s.append(hex_digit_str(d5));
    s.append(hex_digit_str(d6));
    s.append(hex_digit_str(d7));
    s.append(hex_digit_str(d8));
    s.append("]");
    assert(s@ =~= spec_fallback_name(hash));
    s
}

/// Whether `c` is an ASCII hex digit.
pub open spec fn spec_is_hex_char(c: char) -> bool {
    let u = c as u32;
    (0x30 <= u && u <= 0x39) || (0x41 <= u && u <= 0x46) || (0x61 <= u && u <= 0x66)
}

/// The value of an ASCII hex digit character.
pub open spec fn spec_hex_val(c: char) -> int {
    let u = c as u32;
    if 0x30 <= u && u <= 0x39 {
        u - 0x30
    } else if 0x41 <= u && u <= 0x46 {
        u - 0x41 + 10
    } else {
        u - 0x61 + 10
    }
}

/// The number a run of hex digit characters denotes, most significant first.
pub open spec fn spec_hex_fold(s: Seq<char>) -> int
    decreases s.len(),
{
    if s.len() == 0 {
        0
    } else {
        16 * spec_hex_fold(s.drop_last()) + spec_hex_val(s.last())
    }
}

/// Sixteen to the power `n`, for digit-run bounds.
pub open spec fn pow16(n: nat) -> int
    decreases n,
{
    if n == 0 {
        1
    } else {
        16 * pow16((n - 1) as nat)
    }
}

/// Whether a character sequence has the exact shape of the bracketed-hex
/// fallback form: `[`, eight hex digits, `]`.
pub open spec fn spec_is_fallback_shape(s: Seq<char>) -> bool {
    s.len() == 10 && s[0] == '[' && s[9] == ']' && (forall|i: int|
        1 <= i < 9 ==> spec_is_hex_char(#[trigger] s[i]))
}

/// Parse the canonical bracketed-hex form back into its hash value: accepts
/// exactly a `[`, eight hex digits (either case), and `]`.
pub fn parse_fallback_name(s: &str) -> (r: Option<u32>)
    ensures
        r is Some <==> spec_is_fallback_shape(s@),
        r matches Some(v) ==> v as int == spec_hex_fold(s@.subrange(1, 9)),
{
    proof {
        reveal_strlit("[");
        reveal_strlit("]");
    }
    if s.unicode_len() != 10 {
        return None;
    }
    if s.get_char(0) != '[' || s.get_char(9) != ']' {
        return None;
    }
    let mut acc: u32 = 0;
    let mut k: usize = 1;
    while k < 9
        invariant
            1 <= k <= 9,
            s@.len() == 10,
            forall|i: int| 1 <= i < k ==> spec_is_hex_char(#[trigger] s@[i]),
            acc as int == spec_hex_fold(s@.subrange(1, k as int)),
            acc < pow16((k - 1) as nat),
        decreases 9 - k,
    {
        let c = s.get_char(k);
        let u = c as u32;
        let d: u32 = if 0x30 <= u && u <= 0x39 {
            u - 0x30
        } else if 0x41 <= u && u <= 0x46 {
            u - 0x41 + 10
        } else if 0x61 <= u && u <= 0x66 {
            u - 0x61 + 10
        } else {
            return None;
        };
        assert(spec_is_hex_char(c) && d == spec_hex_val(c));
        proof {
            lemma_pow16_values();
            lemma_pow16_mono((k - 1) as nat, 7);
        }
        acc = acc * 16 + d;
        k = k + 1;
        proof {
            assert(s@.subrange(1, k as int).drop_last() =~= s@.subrange(1, k - 1));
            assert(s@.subrange(1, k as int).last() == s@[k - 1]);
        }
    }
    assert(s@.subrange(1, 9) =~= s@.subrange(1, 9));
    Some(acc)
}

/// Sixteen to any power is positive, and the power function is monotone.
proof fn lemma_pow16_mono(a: nat, b: nat)
    requires
        a <= b,
    ensures
        0 < pow16(a) <= pow16(b),
    decreases b,
{
    if a == b {
        if a == 0 {
        } else {
            lemma_pow16_mono((a - 1) as nat, (b - 1) as nat);
        }
    } else {
        lemma_pow16_mono(a, (b - 1) as nat);
    }
}

/// The concrete powers of sixteen the parser's bounds use.
proof fn lemma_pow16_values()
    ensures
        pow16(0) == 1,
        pow16(7) == 0x10000000,
        pow16(8) == 0x100000000,
{
    assert(pow16(0) == 1);
    assert(pow16(1) == 16);
    assert(pow16(2) == 0x100);
    assert(pow16(3) == 0x1000);
    assert(pow16(4) == 0x10000);
    assert(pow16(5) == 0x100000);
    assert(pow16(6) == 0x1000000);
    assert(pow16(7) == 0x10000000);
    assert(pow16(8) == 0x100000000);
}

/// Parsing the fallback rendering of any hash yields that hash back.
pub proof fn lemma_fallback_round_trip(h: u32)
    ensures
        spec_is_fallback_shape(spec_fallback_name(h)),
        spec_hex_fold(spec_fallback_name(h).subrange(1, 9)) == h,
{
    let s = spec_fallback_name(h);
    let n1 = (h >> 28) & 0xF;
    let n2 = (h >> 24) & 0xF;
    let n3 = (h >> 20) & 0xF;
    let n4 = (h >> 16) & 0xF;
    let n5 = (h >> 12) & 0xF;
    let n6 = (h >> 8) & 0xF;
    let n7 = (h >> 4) & 0xF;
    let n8 = h & 0xF;
    assert(n1 < 16 && n2 < 16 && n3 < 16 && n4 < 16 && n5 < 16 && n6 < 16 && n7 < 16 && n8 < 16)
        by (bit_vector)
        requires
            n1 == (h >> 28) & 0xF && n2 == (h >> 24) & 0xF && n3 == (h >> 20) & 0xF && n4 == (h
                >> 16) & 0xF && n5 == (h >> 12) & 0xF && n6 == (h >> 8) & 0xF && n7 == (h >> 4)
                & 0xF && n8 == h & 0xF,
    ;
    assert forall|i: int| 1 <= i < 9 implies spec_is_hex_char(#[trigger] s[i]) by {
        lemma_hex_digit_char(s[i]);
    }
    let digits = s.subrange(1, 9);
    assert(digits.len() == 8);
    assert(spec_hex_val(spec_hex_digit(n1)) == n1 && spec_hex_val(spec_hex_digit(n2)) == n2
        && spec_hex_val(spec_hex_digit(n3)) == n3 && spec_hex_val(spec_hex_digit(n4)) == n4
        && spec_hex_val(spec_hex_digit(n5)) == n5 && spec_hex_val(spec_hex_digit(n6)) == n6
        && spec_hex_val(spec_hex_digit(n7)) == n7 && spec_hex_val(spec_hex_digit(n8)) == n8);
    let folded: int = (((((((n1 * 16 + n2) * 16 + n3) * 16 + n4) * 16 + n5) * 16 + n6) * 16 + n7)
        * 16 + n8);
    assert(spec_hex_fold(digits) == folded) by {
        assert(digits =~= s.subrange(1, 9));
        assert(s.subrange(1, 9).drop_last() =~= s.subrange(1, 8));
        assert(s.subrange(1, 8).drop_last() =~= s.subrange(1, 7));
        assert(s.subrange(1, 7).drop_last() =~= s.subrange(1, 6));
        assert(s.subrange(1, 6).drop_last() =~= s.subrange(1, 5));
        assert(s.subrange(1, 5).drop_last() =~= s.subrange(1, 4));
        assert(s.subrange(1, 4).drop_last() =~= s.subrange(1, 3));
        assert(s.subrange(1, 3).drop_last() =~= s.subrange(1, 2));
        assert(s.subrange(1, 2).drop_last() =~= s.subrange(1, 1));
        assert(spec_hex_fold(s.subrange(1, 1)) == 0);
        assert(spec_hex_fold(s.subrange(1, 2)) == n1);
        assert(spec_hex_fold(s.subrange(1, 3)) == n1 * 16 + n2);
        assert(spec_hex_fold(s.subrange(1, 4)) == (n1 * 16 + n2) * 16 + n3);
        assert(spec_hex_fold(s.subrange(1, 5)) == ((n1 * 16 + n2) * 16 + n3) * 16 + n4);
        assert(spec_hex_fold(s.subrange(1, 6)) == (((n1 * 16 + n2) * 16 + n3) * 16 + n4) * 16
            + n5);
        assert(spec_hex_fold(s.subrange(1, 7)) == ((((n1 * 16 + n2) * 16 + n3) * 16 + n4) * 16
            + n5) * 16 + n6);
        assert(spec_hex_fold(s.subrange(1, 8)) == (((((n1 * 16 + n2) * 16 + n3) * 16 + n4) * 16
            + n5) * 16 + n6) * 16 + n7);
        assert(spec_hex_fold(s.subrange(1, 9)) == ((((((n1 * 16 + n2) * 16 + n3) * 16 + n4) * 16
            + n5) * 16 + n6) * 16 + n7) * 16 + n8);
    }
    assert(n1 * 0x10000000 + n2 * 0x1000000 + n3 * 0x100000 + n4 * 0x10000 + n5 * 0x1000 + n6
        * 0x100 + n7 * 0x10 + n8 == h) by (bit_vector)
        requires
            n1 == (h >> 28) & 0xF && n2 == (h >> 24) & 0xF && n3 == (h >> 20) & 0xF && n4 == (h
                >> 16) & 0xF && n5 == (h >> 12) & 0xF && n6 == (h >> 8) & 0xF && n7 == (h >> 4)
                & 0xF && n8 == h & 0xF,
    ;
}

/// A hex digit character rendered for a nibble value is a hex digit and
/// denotes that value.
proof fn lemma_hex_digit_char(c: char)
    requires
        exists|d: u32| d < 16 && c == spec_hex_digit(d),
    ensures
        spec_is_hex_char(c),
{
    let d = choose|d: u32| d < 16 && c == spec_hex_digit(d);
    assert(spec_is_hex_char(spec_hex_digit(d)));
}

/// Whether `c` is an ASCII whitespace character (the set the name-list
/// reader strips from line ends).
pub open spec fn spec_is_ws(c: char) -> bool {
    c == ' ' || c == '\t' || c == '\n' || c == '\r' || c == '\u{b}' || c == '\u{c}'
}

/// `s` with leading and trailing whitespace removed.
pub open spec fn spec_trim(s: Seq<char>) -> Seq<char>
    decreases s.len(),
{
    if s.len() > 0 && spec_is_ws(s[0]) {
        spec_trim(s.drop_first())
    } else if s.len() > 0 && spec_is_ws(s.last()) {
        spec_trim(s.drop_last())
    } else {
        s
    }
}

/// The trimmed form of `s` is its subrange between the first and last
/// non-whitespace characters.
proof fn lemma_trim_is_subrange(s: Seq<char>, a: int, b: int)
    requires
        0 <= a <= b <= s.len(),
        forall|i: int| 0 <= i < a ==> spec_is_ws(#[trigger] s[i]),
        forall|i: int| b <= i < s.len() ==> spec_is_ws(#[trigger] s[i]),
        a < b ==> !spec_is_ws(s[a]) && !spec_is_ws(s[b - 1]),
    ensures
        spec_trim(s) == s.subrange(a, b),
    decreases s.len(),
{
    if s.len() == 0 {
        assert(s.subrange(a, b) =~= s);
    } else if spec_is_ws(s[0]) {
        if a == b {
            lemma_trim_is_subrange(s.drop_first(), 0, 0);
            assert(s.subrange(a, b) =~= s.drop_first().subrange(0, 0));
        } else {
            assert(a > 0);
            lemma_trim_is_subrange(s.drop_first(), a - 1, b - 1);
            assert(s.subrange(a, b) =~= s.drop_first().subrange(a - 1, b - 1));
        }
    } else if spec_is_ws(s.last()) {
        assert(a < b);
        assert(b < s.len());
        lemma_trim_is_subrange(s.drop_last(), a, b);
        assert(s.subrange(a, b) =~= s.drop_last().subrange(a, b));
    } else {
        assert(a == 0 && b == s.len());
        assert(s.subrange(a, b) =~= s);
    }
}

/// Whether `c` is ASCII whitespace.
fn is_ws_char(c: char) -> (r: bool)
    ensures
        r == spec_is_ws(c),
{
    c == ' ' || c == '\t' || c == '\n' || c == '\r' || c == '\u{b}' || c == '\u{c}'
}

/// `s` with leading and trailing ASCII whitespace removed.
pub fn trimmed<'a>(s: &'a str) -> (r: &'a str)
    ensures
        r@ == spec_trim(s@),
{
    let n = s.unicode_len();
    let mut a: usize = 0;
    while a < n && is_ws_char(s.get_char(a))
        invariant
            a <= n,
            n == s@.len(),
            forall|i: int| 0 <= i < a ==> spec_is_ws(#[trigger] s@[i]),
        decreases n - a,
    {
        a = a + 1;
    }
    if a == n {
        proof {
            lemma_trim_is_subrange(s@, n as int, n as int);
        }
        return s.substring_char(n, n);
    }
    let mut b: usize = n;
    while b > a + 1 && is_ws_char(s.get_char(b - 1))
        invariant
            a < b <= n,
            n == s@.len(),
            !spec_is_ws(s@[a as int]),
            forall|i: int| b <= i < n ==> spec_is_ws(#[trigger] s@[i]),
        decreases b,
    {
        b = b - 1;
    }
    if is_ws_char(s.get_char(b - 1)) {
        assert(b == a + 1 && spec_is_ws(s@[a as int]));
    }
    proof {
        lemma_trim_is_subrange(s@, a as int, b as int);
    }
    s.substring_char(a, b)
}

/// A name-to-hash service with a reverse lookup that renders unknown hashes
/// in the bracketed-hex fallback form.
pub trait HashTable: Sized {
    /// The hash the table computes for a name.
    spec fn spec_calc(&self, name: Seq<char>) -> u32;

    /// The reverse index: the name recorded for each known hash.
    spec fn spec_names(&self) -> Map<u32, Seq<char>>;

    /// Calculate the hash for a field name.
    fn calc(&self, field_name: &str) -> (h: u32)
        ensures
            h == self.spec_calc(field_name@),
    ;

    /// Find the field name for a given hash; a hash the table does not know
    /// renders as bracketed uppercase hex, such as `[DEADBEEF]`.
    fn find(&self, hash: u32) -> (name: String)
        ensures
            self.spec_names().contains_key(hash) ==> name@ == self.spec_names()[hash],
            !self.spec_names().contains_key(hash) ==> name@ == spec_fallback_name(hash),
    ;

    /// Add a field name to the lookup table and return its hash; on a hash
    /// collision the first recorded name wins.
    fn add(&mut self, field_name: &str) -> (h: u32)
        ensures
            h == old(self).spec_calc(field_name@),
            forall|n: Seq<char>| #[trigger] final(self).spec_calc(n) == old(self).spec_calc(n),
            final(self).spec_names() == if old(self).spec_names().contains_key(h) {
                old(self).spec_names()
            } else {
                old(self).spec_names().insert(h, field_name@)
            },
    ;
}

/// Type of hash algorithm to use.
#[derive(Debug, Clone, Copy, PartialEq, Eq, Structural)]
pub enum HashAlgorithm {
    /// The 31-multiplier signed-byte fold used by the Super Mario Galaxy
    /// tables.
    SMG,
}

impl HashAlgorithm {
    /// Calculate a hash using this algorithm.
    pub fn calc(&self, field_name: &str) -> (r: u32)
        ensures
            r == spec_calc_hash(field_name@),
    {
        match self {
            HashAlgorithm::SMG => calc_hash(field_name),
        }
    }
}

/// A hash lookup table that can be seeded from a list of known field names.
#[derive(Debug, Clone)]
pub struct FileHashTable {
    algorithm: HashAlgorithm,
    lookup: HashMap<u32, String>,
}

impl FileHashTable {
    /// The reverse index as a map from hash to name characters.
    pub closed spec fn spec_lookup(&self) -> Map<u32, Seq<char>> {
        Map::new(
            |h: u32| self.lookup@.dom().contains(h),
            |h: u32| self.lookup@[h]@,
        )
    }

    /// The algorithm this table hashes names with.
    pub closed spec fn spec_algorithm(&self) -> HashAlgorithm {
        self.algorithm
    }

    /// Create a new empty hash table with the given algorithm.
    pub fn new(algorithm: HashAlgorithm) -> (r: Self)
        ensures
            r.spec_algorithm() == algorithm,
            r.spec_names() == Map::<u32, Seq<char>>::empty(),
    {
        let r = FileHashTable { algorithm, lookup: HashMap::new() };
        proof {
            assert(r.spec_lookup() =~= Map::<u32, Seq<char>>::empty());
        }
        r
    }

    /// Populate a table from the lines of a name list: blank lines and lines
    /// whose first non-whitespace character is `#` are skipped, every other
    /// line is trimmed and indexed under its hash, later lines overriding
    /// earlier ones on a hash collision.
    pub fn from_lines(algorithm: HashAlgorithm, lines: &Vec<String>) -> (r: Self)
        ensures
            r.spec_algorithm() == algorithm,
            r.spec_names() == spec_lines_names(lines.deep_view()),
    {
        let mut lookup: HashMap<u32, String> = HashMap::new();
        let mut i: usize = 0;
        proof {
            assert(Map::new(
                |h: u32| lookup@.dom().contains(h),
                |h: u32| lookup@[h]@,
            ) =~= spec_lines_names(lines.deep_view().take(0)));
        }
        while i < lines.len()
            invariant
                i <= lines@.len(),
                lines.deep_view().len() == lines@.len(),
                forall|j: int| 0 <= j < lines@.len() ==> lines.deep_view()[j] == #[trigger] lines@[j]@,
                Map::new(
                    |h: u32| lookup@.dom().contains(h),
                    |h: u32| lookup@[h]@,
                ) == spec_lines_names(lines.deep_view().take(i as int)),
            decreases lines@.len() - i,
        {
            let ghost pre = Map::new(
                |h: u32| lookup@.dom().contains(h),
                |h: u32| lookup@[h]@,
            );
            let line = trimmed(&lines[i]);
            proof {
                reveal_strlit("#");
            }
            let skip = line.unicode_len() == 0 || line.get_char(0) == '#';
            if !skip {
                let hash = algorithm.calc(line);
                let owned = line.to_owned();
                lookup.insert(hash, owned);
            }
            i = i + 1;
            proof {
                let tl = lines.deep_view().take(i as int);
                assert(tl.drop_last() =~= lines.deep_view().take(i - 1));
                assert(tl.last() == lines.deep_view()[i - 1]);
                if skip {
                    assert(spec_lines_names(tl) == pre);
                } else {
                    assert(Map::new(
                        |h: u32| lookup@.dom().contains(h),
                        |h: u32| lookup@[h]@,
                    ) =~= pre.insert(spec_calc_hash(spec_trim(lines.deep_view()[i - 1])),
                        spec_trim(lines.deep_view()[i - 1])));
                }
            }
        }
        proof {
            assert(lines.deep_view().take(lines@.len() as int) =~= lines.deep_view());
        }
        FileHashTable { algorithm, lookup }
    }

    /// Get the hash algorithm used by this table.
    pub fn algorithm(&self) -> (r: HashAlgorithm)
        ensures
            r == self.spec_algorithm(),
    {
        self.algorithm
    }
}

/// The reverse index a list of name lines seeds: trimmed, blanks and
/// `#`-comments skipped, later lines overriding earlier ones.
pub open spec fn spec_lines_names(lines: Seq<Seq<char>>) -> Map<u32, Seq<char>>
    decreases lines.len(),
{
    if lines.len() == 0 {
        Map::empty()
    } else {
        let rest = spec_lines_names(lines.drop_last());
        let t = spec_trim(lines.last());
        if t.len() == 0 || t[0] == '#' {
            rest
        } else {
            rest.insert(spec_calc_hash(t), t)
        }
    }
}

impl HashTable for FileHashTable {
    open spec fn spec_calc(&self, name: Seq<char>) -> u32 {
        spec_calc_hash(name)
    }

    open spec fn spec_names(&self) -> Map<u32, Seq<char>> {
        self.spec_lookup()
    }

    fn calc(&self, field_name: &str) -> (h: u32)
        ensures
            h == self.spec_calc(field_name@),
    {
        self.algorithm.calc(field_name)
    }

    fn find(&self, hash: u32) -> (name: String)
        ensures
            self.spec_names().contains_key(hash) ==> name@ == self.spec_names()[hash],
            !self.spec_names().contains_key(hash) ==> name@ == spec_fallback_name(hash),
    {
        match self.lookup.get(&hash) {
            Some(s) => s.clone(),
            None => fallback_name_of(hash),
        }
    }

    fn add(&mut self, field_name: &str) -> (h: u32)
        ensures
            h == old(self).spec_calc(field_name@),
            forall|n: Seq<char>| #[trigger] final(self).spec_calc(n) == old(self).spec_calc(n),
            final(self).spec_names() == if old(self).spec_names().contains_key(h) {
                old(self).spec_names()
            } else {
                old(self).spec_names().insert(h, field_name@)
            },
    {
        let hash = self.algorithm.calc(field_name);
        if !self.lookup.contains_key(&hash) {
            let ghost pre = self.spec_lookup();
            self.lookup.insert(hash, field_name.to_owned());
            proof {
                assert(self.spec_lookup() =~= pre.insert(hash, field_name@));
            }
        } else {
            proof {
                assert(self.spec_lookup() =~= old(self).spec_lookup());
            }
        }
        hash
    }
}

/// Create a hash table configured for the Super Mario Galaxy games, with an
/// empty reverse index.
pub fn smg_hash_table() -> (r: FileHashTable)
    ensures
        r.spec_algorithm() == HashAlgorithm::SMG,
        r.spec_names() == Map::<u32, Seq<char>>::empty(),
{
    FileHashTable::new(HashAlgorithm::SMG)
}

/// Create a hash table for Super Mario Galaxy seeded from the lines of a
/// name-list file.
pub fn smg_hash_table_with_lines(lines: &Vec<String>) -> (r: FileHashTable)
    ensures
        r.spec_algorithm() == HashAlgorithm::SMG,
        r.spec_names() == spec_lines_names(lines.deep_view()),
{
    FileHashTable::from_lines(HashAlgorithm::SMG, lines)
}


} // verus!
