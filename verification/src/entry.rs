//! Entry (row) implementation: a sparse, insertion-ordered mapping from
//! field hash to value.

use vstd::prelude::*;
use crate::field::FieldValue;
use crate::hash::HashTable;

verus! {

/// A key that can be used to access field values.
#[derive(Debug, Clone)]
pub enum FieldKey {
    /// Access by hash value.
    Hash(u32),
    /// Access by field name (to be hashed).
    Name(String),
}

/// The value the pair list associates with `h`: the first pair whose key is
/// `h`, scanned front to back.
pub open spec fn spec_lookup(s: Seq<(u32, FieldValue)>, h: u32) -> Option<FieldValue>
    decreases s.len(),
{
    if s.len() == 0 {
        None
    } else if s[0].0 == h {
        Some(s[0].1)
    } else {
        spec_lookup(s.drop_first(), h)
    }
}

/// The position of the first pair whose key is `h`.
pub open spec fn spec_index_of(s: Seq<(u32, FieldValue)>, h: u32) -> int
    decreases s.len(),
{
    if s.len() == 0 {
        0
    } else if s[0].0 == h {
        0
    } else {
        1 + spec_index_of(s.drop_first(), h)
    }
}

/// The pair list after a keyed write: an in-place update of the first pair
/// with key `h` if one exists, an appended pair otherwise.
pub open spec fn spec_set(s: Seq<(u32, FieldValue)>, h: u32, v: FieldValue) -> Seq<
    (u32, FieldValue),
> {
    if spec_lookup(s, h) is Some {
        s.update(spec_index_of(s, h), (h, v))
    } else {
        s.push((h, v))
    }
}

/// The pair list with every pair keyed `h` removed (at most one exists in a
/// well-formed list).
pub open spec fn spec_unset(s: Seq<(u32, FieldValue)>, h: u32) -> Seq<(u32, FieldValue)> {
    if spec_lookup(s, h) is Some {
        s.remove(spec_index_of(s, h))
    } else {
        s
    }
}

/// Keys are pairwise distinct.
pub open spec fn spec_keys_unique(s: Seq<(u32, FieldValue)>) -> bool {
    forall|i: int, j: int| 0 <= i < j < s.len() ==> (#[trigger] s[i]).0 != (#[trigger] s[j]).0
}

/// If the first `i` pairs miss `h` and pair `i` carries it, the keyed lookup
/// lands exactly there.
pub proof fn lemma_first_match(s: Seq<(u32, FieldValue)>, h: u32, i: int)
    requires
        0 <= i < s.len(),
        s[i].0 == h,
        forall|j: int| 0 <= j < i ==> (#[trigger] s[j]).0 != h,
    ensures
        spec_index_of(s, h) == i,
        spec_lookup(s, h) == Some(s[i].1),
    decreases i,
{
    if i > 0 {
        lemma_first_match(s.drop_first(), h, i - 1);
    }
}

/// A list none of whose pairs carries `h` looks `h` up to nothing.
pub proof fn lemma_no_match(s: Seq<(u32, FieldValue)>, h: u32)
    requires
        forall|j: int| 0 <= j < s.len() ==> (#[trigger] s[j]).0 != h,
    ensures
        spec_lookup(s, h) is None,
    decreases s.len(),
{
    if s.len() > 0 {
        lemma_no_match(s.drop_first(), h);
    }
}

/// A successful lookup names a pair of the list: its index is in range and
/// holds the key and the value found.
pub proof fn lemma_lookup_index(s: Seq<(u32, FieldValue)>, h: u32)
    requires
        spec_lookup(s, h) is Some,
    ensures
        0 <= spec_index_of(s, h) < s.len(),
        s[spec_index_of(s, h)].0 == h,
        spec_lookup(s, h) == Some(s[spec_index_of(s, h)].1),
        forall|j: int| 0 <= j < spec_index_of(s, h) ==> (#[trigger] s[j]).0 != h,
    decreases s.len(),
{
    if s.len() > 0 && s[0].0 != h {
        let rest = s.drop_first();
        lemma_lookup_index(rest, h);
        let i = spec_index_of(s, h);
        assert(i == 1 + spec_index_of(rest, h));
        assert(s[i] == rest[i - 1]);
        assert forall|j: int| 0 <= j < i implies ((#[trigger] s[j]).0 != h) by {
            if j > 0 {
                assert(s[j] == rest[j - 1]);
            }
        }
    }
}

/// What a keyed write does to every lookup: the written key now maps to the
/// new value, every other key reads as before.
pub proof fn lemma_set_lookup(s: Seq<(u32, FieldValue)>, h: u32, v: FieldValue, h2: u32)
    ensures
        spec_lookup(spec_set(s, h, v), h2) == if h2 == h {
            Some(v)
        } else {
            spec_lookup(s, h2)
        },
    decreases s.len(),
{
    let r = spec_set(s, h, v);
    if s.len() == 0 {
        assert(r =~= seq![(h, v)]);
        if h2 != h {
            lemma_no_match(r, h2);
        } else {
            lemma_first_match(r, h, 0);
        }
    } else if spec_lookup(s, h) is Some {
        if s[0].0 == h {
            assert(spec_index_of(s, h) == 0);
            assert(r == s.update(0, (h, v)));
            assert(r[0] == (h, v));
            assert(r.drop_first() =~= s.drop_first());
        } else {
            let rest = s.drop_first();
            lemma_set_lookup(rest, h, v, h2);
            assert(spec_lookup(s, h) == spec_lookup(rest, h));
            assert(spec_index_of(s, h) == 1 + spec_index_of(rest, h));
            lemma_lookup_index(s, h);
            assert(r.drop_first() =~= spec_set(rest, h, v));
            assert(r[0] == s[0]);
        }
    } else {
        assert(r == s.push((h, v)));
        assert(r[0] == s[0]);
        if s[0].0 == h2 {
        } else {
            let rest = s.drop_first();
            lemma_set_lookup(rest, h, v, h2);
            assert(spec_lookup(s, h) == spec_lookup(rest, h));
            assert(r.drop_first() =~= spec_set(rest, h, v));
        }
    }
}

/// A keyed write keeps the keys pairwise distinct.
pub proof fn lemma_set_unique(s: Seq<(u32, FieldValue)>, h: u32, v: FieldValue)
    requires
        spec_keys_unique(s),
    ensures
        spec_keys_unique(spec_set(s, h, v)),
        spec_lookup(s, h) is Some ==> spec_set(s, h, v).len() == s.len(),
        spec_lookup(s, h) is None ==> spec_set(s, h, v).len() == s.len() + 1,
{
    let r = spec_set(s, h, v);
    if spec_lookup(s, h) is Some {
        lemma_lookup_index(s, h);
        assert forall|i: int, j: int| 0 <= i < j < r.len() implies (#[trigger] r[i]).0 != (
        #[trigger] r[j]).0 by {
            assert(s[i].0 != s[j].0);
        }
    } else {
        lemma_no_match_all(s, h);
        assert forall|i: int, j: int| 0 <= i < j < r.len() implies (#[trigger] r[i]).0 != (
        #[trigger] r[j]).0 by {
            if j < s.len() {
                assert(s[i].0 != s[j].0);
            } else {
                assert(s[i].0 != h);
            }
        }
    }
}

/// If a lookup misses, no pair of the list carries the key.
pub proof fn lemma_no_match_all(s: Seq<(u32, FieldValue)>, h: u32)
    requires
        spec_lookup(s, h) is None,
    ensures
        forall|j: int| 0 <= j < s.len() ==> (#[trigger] s[j]).0 != h,
    decreases s.len(),
{
    if s.len() > 0 {
        let rest = s.drop_first();
        lemma_no_match_all(rest, h);
        assert forall|j: int| 0 <= j < s.len() implies ((#[trigger] s[j]).0 != h) by {
            if j > 0 {
                assert(s[j] == rest[j - 1]);
            }
        }
    }
}

/// What removing a key does to every lookup, on a well-formed list: the
/// removed key reads as nothing, every other key as before.
pub proof fn lemma_unset_lookup(s: Seq<(u32, FieldValue)>, h: u32, h2: u32)
    requires
        spec_keys_unique(s),
    ensures
        spec_keys_unique(spec_unset(s, h)),
        spec_lookup(spec_unset(s, h), h2) == if h2 == h {
            None::<FieldValue>
        } else {
            spec_lookup(s, h2)
        },
    decreases s.len(),
{
    let r = spec_unset(s, h);
    if spec_lookup(s, h) is Some {
        lemma_lookup_index(s, h);
        let i = spec_index_of(s, h);
        assert(r =~= s.subrange(0, i) + s.subrange(i + 1, s.len() as int));
        assert forall|a: int, b: int| 0 <= a < b < r.len() implies (#[trigger] r[a]).0 != (
        #[trigger] r[b]).0 by {
            let a2: int = if a < i {
                a
            } else {
                a + 1
            };
            let b2: int = if b < i {
                b
            } else {
                b + 1
            };
            assert(r[a] == s[a2] && r[b] == s[b2]);
            assert(s[a2].0 != s[b2].0);
        }
        if h2 == h {
            assert forall|j: int| 0 <= j < r.len() implies (#[trigger] r[j]).0 != h by {
                let j2: int = if j < i {
                    j
                } else {
                    j + 1
                };
                assert(r[j] == s[j2]);
            }
            lemma_no_match(r, h);
        } else {
            if spec_lookup(s, h2) is Some {
                lemma_lookup_index(s, h2);
                let k = spec_index_of(s, h2);
                let k2: int = if k <= i {
                    k
                } else {
                    k - 1
                };
                assert(r[k2] == s[k]);
                assert forall|j: int| 0 <= j < k2 implies (#[trigger] r[j]).0 != h2 by {
                    let j2: int = if j < i {
                        j
                    } else {
                        j + 1
                    };
                    assert(r[j] == s[j2]);
                }
                lemma_first_match(r, h2, k2);
            } else {
                lemma_no_match_all(s, h2);
                assert forall|j: int| 0 <= j < r.len() implies (#[trigger] r[j]).0 != h2 by {
                    let j2: int = if j < i {
                        j
                    } else {
                        j + 1
                    };
                    assert(r[j] == s[j2]);
                }
                lemma_no_match(r, h2);
            }
        }
    }
}

/// An entry (row) in a JMap container: a sparse mapping from field hash to
/// value, holding at most one value per hash, in insertion order.
#[derive(Debug, Clone, PartialEq)]
pub struct Entry {
    data: Vec<(u32, FieldValue)>,
}

impl Entry {
    /// The pairs this entry holds, in insertion order.
    pub closed spec fn spec_pairs(&self) -> Seq<(u32, FieldValue)> {
        self.data@
    }

    /// The value this entry holds for a hash.
    pub open spec fn spec_get(&self, h: u32) -> Option<FieldValue> {
        spec_lookup(self.spec_pairs(), h)
    }

    /// Every hash occurs at most once.
    pub open spec fn wf(&self) -> bool {
        spec_keys_unique(self.spec_pairs())
    }

    /// Create a new empty entry.
    pub(crate) fn new() -> (r: Entry)
        ensures
            r.wf(),
            r.spec_pairs() == Seq::<(u32, FieldValue)>::empty(),
    {
        Entry { data: Vec::new() }
    }

    /// Create an entry with pre-allocated capacity.
    pub(crate) fn with_capacity(capacity: usize) -> (r: Entry)
        ensures
            r.wf(),
            r.spec_pairs() == Seq::<(u32, FieldValue)>::empty(),
    {
        let mut data: Vec<(u32, FieldValue)> = Vec::new();
        data.reserve(capacity);
        Entry { data }
    }

    /// Get a value by hash.
    pub fn get_by_hash(&self, hash: u32) -> (r: Option<&FieldValue>)
        ensures
            r matches Some(v) ==> self.spec_get(hash) == Some(*v),
            r is None ==> self.spec_get(hash) is None,
    {
        let mut i: usize = 0;
        while i < self.data.len()
            invariant
                i <= self.data@.len(),
                forall|j: int| 0 <= j < i ==> (#[trigger] self.data@[j]).0 != hash,
            decreases self.data@.len() - i,
        {
            if self.data[i].0 == hash {
                proof {
                    lemma_first_match(self.data@, hash, i as int);
                }
                return Some(&self.data[i].1);
            }
            i = i + 1;
        }
        proof {
            lemma_no_match(self.data@, hash);
        }
        None
    }

    /// Get a value by name, using the provided hash table.
    pub fn get<H: HashTable>(&self, hash_table: &H, name: &str) -> (r: Option<&FieldValue>)
        ensures
            r matches Some(v) ==> self.spec_get(hash_table.spec_calc(name@)) == Some(*v),
            r is None ==> self.spec_get(hash_table.spec_calc(name@)) is None,
    {
        let hash = hash_table.calc(name);
        self.get_by_hash(hash)
    }

    /// Get an integer value by hash.
    pub fn get_int_by_hash(&self, hash: u32) -> (r: Option<i32>)
        ensures
            r == (match self.spec_get(hash) {
                Some(FieldValue::Int(v)) => Some(v),
                _ => None::<i32>,
            }),
    {
        match self.get_by_hash(hash) {
            Some(FieldValue::Int(v)) => Some(*v),
            Some(_) => None,
            None => None,
        }
    }

    /// Get an integer value by name.
    pub fn get_int<H: HashTable>(&self, hash_table: &H, name: &str) -> (r: Option<i32>)
        ensures
            r == (match self.spec_get(hash_table.spec_calc(name@)) {
                Some(FieldValue::Int(v)) => Some(v),
                _ => None::<i32>,
            }),
    {
        let hash = hash_table.calc(name);
        self.get_int_by_hash(hash)
    }

    /// Get a float value, as its raw bit pattern, by hash.
    pub fn get_float_bits_by_hash(&self, hash: u32) -> (r: Option<u32>)
        ensures
            r == (match self.spec_get(hash) {
                Some(FieldValue::Float(v)) => Some(v),
                _ => None::<u32>,
            }),
    {
        match self.get_by_hash(hash) {
            Some(FieldValue::Float(v)) => Some(*v),
            Some(_) => None,
            None => None,
        }
    }

    /// Get a float value, as its raw bit pattern, by name.
    pub fn get_float_bits<H: HashTable>(&self, hash_table: &H, name: &str) -> (r: Option<u32>)
        ensures
            r == (match self.spec_get(hash_table.spec_calc(name@)) {
                Some(FieldValue::Float(v)) => Some(v),
                _ => None::<u32>,
            }),
    {
        let hash = hash_table.calc(name);
        self.get_float_bits_by_hash(hash)
    }

    /// Get a string value by hash.
    pub fn get_string_by_hash(&self, hash: u32) -> (r: Option<&str>)
        ensures
            r matches Some(s) ==> self.spec_get(hash) matches Some(FieldValue::String(v)) && s@
                == v@,
            r is None ==> !(self.spec_get(hash) matches Some(FieldValue::String(_))),
    {
        match self.get_by_hash(hash) {
            Some(v) => v.as_str(),
            None => None,
        }
    }

    /// Get a string value by name.
    pub fn get_string<H: HashTable>(&self, hash_table: &H, name: &str) -> (r: Option<&str>)
        ensures
            r matches Some(s) ==> self.spec_get(hash_table.spec_calc(name@)) matches Some(
                FieldValue::String(v),
            ) && s@ == v@,
            r is None ==> !(self.spec_get(hash_table.spec_calc(name@)) matches Some(
                FieldValue::String(_),
            )),
    {
        let hash = hash_table.calc(name);
        self.get_string_by_hash(hash)
    }

    /// Set a value by hash: overwrite the value the hash already maps to, or
    /// record a new pair at the end.
    pub fn set_by_hash(&mut self, hash: u32, value: FieldValue)
        ensures
            final(self).spec_pairs() == spec_set(old(self).spec_pairs(), hash, value),
            old(self).wf() ==> final(self).wf(),
    {
        let mut i: usize = 0;
        while i < self.data.len()
            invariant
                i <= self.data@.len(),
                forall|j: int| 0 <= j < i ==> (#[trigger] self.data@[j]).0 != hash,
                self.data@ == old(self).spec_pairs(),
            decreases self.data@.len() - i,
        {
            if self.data[i].0 == hash {
                proof {
                    lemma_first_match(self.data@, hash, i as int);
                }
                self.data.set(i, (hash, value));
                proof {
                    if old(self).wf() {
                        lemma_set_unique(old(self).spec_pairs(), hash, value);
                    }
                }
                return ;
            }
            i = i + 1;
        }
        proof {
            lemma_no_match(self.data@, hash);
        }
        self.data.push((hash, value));
        proof {
            if old(self).wf() {
                lemma_set_unique(old(self).spec_pairs(), hash, value);
            }
        }
    }

    /// Set a value by name, using the provided hash table.
    pub fn set<H: HashTable>(&mut self, hash_table: &H, name: &str, value: FieldValue)
        ensures
            final(self).spec_pairs() == spec_set(
                old(self).spec_pairs(),
                hash_table.spec_calc(name@),
                value,
            ),
            old(self).wf() ==> final(self).wf(),
    {
        let hash = hash_table.calc(name);
        self.set_by_hash(hash, value);
    }

    /// Remove the value a hash maps to, if any.
    pub(crate) fn remove_by_hash(&mut self, hash: u32)
        requires
            old(self).wf(),
        ensures
            final(self).wf(),
            final(self).spec_pairs() == spec_unset(old(self).spec_pairs(), hash),
    {
        let mut i: usize = 0;
        while i < self.data.len()
            invariant
                i <= self.data@.len(),
                forall|j: int| 0 <= j < i ==> (#[trigger] self.data@[j]).0 != hash,
                self.wf(),
                self.spec_pairs() == old(self).spec_pairs(),
            decreases self.data@.len() - i,
        {
            if self.data[i].0 == hash {
                proof {
                    lemma_first_match(self.data@, hash, i as int);
                    lemma_unset_lookup(self.data@, hash, hash);
                }
                self.data.remove(i);
                return ;
            }
            i = i + 1;
        }
        proof {
            lemma_no_match(self.data@, hash);
        }
    }

    /// Check if this entry holds a value for a hash.
    pub fn contains_hash(&self, hash: u32) -> (r: bool)
        ensures
            r == (self.spec_get(hash) is Some),
    {
        match self.get_by_hash(hash) {
            Some(_) => true,
            None => false,
        }
    }

    /// Check if this entry holds a value for a name.
    pub fn contains<H: HashTable>(&self, hash_table: &H, name: &str) -> (r: bool)
        ensures
            r == (self.spec_get(hash_table.spec_calc(name@)) is Some),
    {
        let hash = hash_table.calc(name);
        self.contains_hash(hash)
    }

    /// The number of values this entry holds.
    pub fn len(&self) -> (r: usize)
        ensures
            r == self.spec_pairs().len(),
    {
        self.data.len()
    }

    /// Check if this entry is empty.
    pub fn is_empty(&self) -> (r: bool)
        ensures
            r == (self.spec_pairs().len() == 0),
    {
        self.data.is_empty()
    }

    /// All hash-value pairs, in insertion order.
    pub fn iter(&self) -> (r: &Vec<(u32, FieldValue)>)
        ensures
            r@ == self.spec_pairs(),
    {
        &self.data
    }
}

impl Default for Entry {
    /// An empty entry.
    fn default() -> (r: Self)
        ensures
            r.wf(),
            r.spec_pairs() == Seq::<(u32, FieldValue)>::empty(),
    {
        Entry::new()
    }
}

} // verus!
