//! The JMap container: an ordered directory of field definitions plus an
//! ordered sequence of entries (rows). This is the in-memory representation
//! of a BCSV table.

use vstd::prelude::*;
use crate::entry::{spec_set, spec_unset, Entry};
use crate::error::JMapError;
use crate::field::{spec_compatible, Field, FieldType, FieldValue};
use crate::hash::HashTable;
use crate::layout::{layout_fields, spec_row_size, spec_total_width, spec_with_offsets};

verus! {

/// The field of the directory carrying hash `h`: the first match, scanned in
/// directory order.
pub open spec fn spec_find_field(s: Seq<Field>, h: u32) -> Option<Field>
    decreases s.len(),
{
    if s.len() == 0 {
        None
    } else if s[0].hash == h {
        Some(s[0])
    } else {
        spec_find_field(s.drop_first(), h)
    }
}

/// The position of the first field carrying hash `h`.
pub open spec fn spec_field_index(s: Seq<Field>, h: u32) -> int
    decreases s.len(),
{
    if s.len() == 0 {
        0
    } else if s[0].hash == h {
        0
    } else {
        1 + spec_field_index(s.drop_first(), h)
    }
}

/// Field hashes are pairwise distinct.
pub open spec fn spec_field_hashes_unique(s: Seq<Field>) -> bool {
    forall|i: int, j: int| 0 <= i < j < s.len() ==> (#[trigger] s[i]).hash != (#[trigger] s[j]).hash
}

/// If the first `i` fields miss `h` and field `i` carries it, the directory
/// lookup lands exactly there.
pub proof fn lemma_field_first_match(s: Seq<Field>, h: u32, i: int)
    requires
        0 <= i < s.len(),
        s[i].hash == h,
        forall|j: int| 0 <= j < i ==> (#[trigger] s[j]).hash != h,
    ensures
        spec_field_index(s, h) == i,
        spec_find_field(s, h) == Some(s[i]),
    decreases i,
{
    if i > 0 {
        lemma_field_first_match(s.drop_first(), h, i - 1);
    }
}

/// A directory none of whose fields carries `h` finds nothing for `h`.
pub proof fn lemma_field_no_match(s: Seq<Field>, h: u32)
    requires
        forall|j: int| 0 <= j < s.len() ==> (#[trigger] s[j]).hash != h,
    ensures
        spec_find_field(s, h) is None,
    decreases s.len(),
{
    if s.len() > 0 {
        lemma_field_no_match(s.drop_first(), h);
    }
}

/// A successful directory lookup names a field of the directory.
pub proof fn lemma_field_lookup_index(s: Seq<Field>, h: u32)
    requires
        spec_find_field(s, h) is Some,
    ensures
        0 <= spec_field_index(s, h) < s.len(),
        s[spec_field_index(s, h)].hash == h,
        spec_find_field(s, h) == Some(s[spec_field_index(s, h)]),
        forall|j: int| 0 <= j < spec_field_index(s, h) ==> (#[trigger] s[j]).hash != h,
    decreases s.len(),
{
    if s.len() > 0 && s[0].hash != h {
        let rest = s.drop_first();
        lemma_field_lookup_index(rest, h);
        let i = spec_field_index(s, h);
        assert(i == 1 + spec_field_index(rest, h));
        assert(s[i] == rest[i - 1]);
        assert forall|j: int| 0 <= j < i implies ((#[trigger] s[j]).hash != h) by {
            if j > 0 {
                assert(s[j] == rest[j - 1]);
            }
        }
    }
}

/// If a directory lookup misses, no field of the directory carries the hash.
pub proof fn lemma_field_no_match_all(s: Seq<Field>, h: u32)
    requires
        spec_find_field(s, h) is None,
    ensures
        forall|j: int| 0 <= j < s.len() ==> (#[trigger] s[j]).hash != h,
    decreases s.len(),
{
    if s.len() > 0 {
        let rest = s.drop_first();
        lemma_field_no_match_all(rest, h);
        assert forall|j: int| 0 <= j < s.len() implies ((#[trigger] s[j]).hash != h) by {
            if j > 0 {
                assert(s[j] == rest[j - 1]);
            }
        }
    }
}

/// The directory after a keyed insert: an in-place replacement of the field
/// already carrying the hash if one exists, an appended field otherwise.
pub open spec fn spec_field_set(s: Seq<Field>, f: Field) -> Seq<Field> {
    if spec_find_field(s, f.hash) is Some {
        s.update(spec_field_index(s, f.hash), f)
    } else {
        s.push(f)
    }
}

/// What a keyed insert does to every directory lookup.
pub proof fn lemma_field_set_find(s: Seq<Field>, f: Field, h2: u32)
    ensures
        spec_find_field(spec_field_set(s, f), h2) == if h2 == f.hash {
            Some(f)
        } else {
            spec_find_field(s, h2)
        },
    decreases s.len(),
{
    let r = spec_field_set(s, f);
    if s.len() == 0 {
        assert(r =~= seq![f]);
        if h2 != f.hash {
            lemma_field_no_match(r, h2);
        } else {
            lemma_field_first_match(r, f.hash, 0);
        }
    } else if spec_find_field(s, f.hash) is Some {
        if s[0].hash == f.hash {
            assert(spec_field_index(s, f.hash) == 0);
            assert(r == s.update(0, f));
            assert(r[0] == f);
            assert(r.drop_first() =~= s.drop_first());
        } else {
            let rest = s.drop_first();
            lemma_field_set_find(rest, f, h2);
            assert(spec_find_field(s, f.hash) == spec_find_field(rest, f.hash));
            assert(spec_field_index(s, f.hash) == 1 + spec_field_index(rest, f.hash));
            lemma_field_lookup_index(s, f.hash);
            assert(r.drop_first() =~= spec_field_set(rest, f));
            assert(r[0] == s[0]);
        }
    } else {
        assert(r == s.push(f));
        assert(r[0] == s[0]);
        if s[0].hash == h2 {
        } else {
            let rest = s.drop_first();
            lemma_field_set_find(rest, f, h2);
            assert(spec_find_field(s, f.hash) == spec_find_field(rest, f.hash));
            assert(r.drop_first() =~= spec_field_set(rest, f));
        }
    }
}

/// A keyed insert keeps the directory hashes pairwise distinct.
pub proof fn lemma_field_set_unique(s: Seq<Field>, f: Field)
    requires
        spec_field_hashes_unique(s),
    ensures
        spec_field_hashes_unique(spec_field_set(s, f)),
{
    let r = spec_field_set(s, f);
    if spec_find_field(s, f.hash) is Some {
        lemma_field_lookup_index(s, f.hash);
        assert forall|i: int, j: int| 0 <= i < j < r.len() implies (#[trigger] r[i]).hash != (
        #[trigger] r[j]).hash by {
            assert(s[i].hash != s[j].hash);
        }
    } else {
        lemma_field_no_match_all(s, f.hash);
        assert forall|i: int, j: int| 0 <= i < j < r.len() implies (#[trigger] r[i]).hash != (
        #[trigger] r[j]).hash by {
            if j < s.len() {
                assert(s[i].hash != s[j].hash);
            } else {
                assert(s[i].hash != f.hash);
            }
        }
    }
}

/// The entry a row gets when every declared field holds its default: the
/// fields' defaults written in directory order.
pub open spec fn spec_default_entry(fields: Seq<Field>) -> Seq<(u32, FieldValue)>
    decreases fields.len(),
{
    if fields.len() == 0 {
        Seq::empty()
    } else {
        spec_set(
            spec_default_entry(fields.drop_last()),
            fields.last().hash,
            fields.last().default,
        )
    }
}

/// The position of the field carrying `hash`, if the directory has one.
pub fn find_field_index(fields: &Vec<Field>, hash: u32) -> (r: Option<usize>)
    ensures
        r matches Some(i) ==> i < fields@.len() && spec_find_field(fields@, hash) == Some(
            fields@[i as int],
        ) && i as int == spec_field_index(fields@, hash) && fields@[i as int].hash == hash,
        r is None ==> spec_find_field(fields@, hash) is None,
{
    let mut i: usize = 0;
    while i < fields.len()
        invariant
            i <= fields@.len(),
            forall|j: int| 0 <= j < i ==> (#[trigger] fields@[j]).hash != hash,
        decreases fields@.len() - i,
    {
        if fields[i].hash == hash {
            proof {
                lemma_field_first_match(fields@, hash, i as int);
            }
            return Some(i);
        }
        i = i + 1;
    }
    proof {
        lemma_field_no_match(fields@, hash);
    }
    None
}

/// The main JMap container, holding fields (columns) and entries (rows):
/// the in-memory representation of a BCSV file.
pub struct JMapInfo<H: HashTable> {
    /// The hash table used for field name lookups.
    hash_table: H,
    /// The field directory, in insertion order, keyed by name hash.
    fields: Vec<Field>,
    /// The rows.
    entries: Vec<Entry>,
    /// Size of a single row record in bytes, as last computed or decoded.
    entry_size: u32,
}

impl<H: HashTable> JMapInfo<H> {
    /// The field directory, in insertion order.
    pub closed spec fn spec_fields(&self) -> Seq<Field> {
        self.fields@
    }

    /// The rows, in order.
    pub closed spec fn spec_entries(&self) -> Seq<Entry> {
        self.entries@
    }

    /// The hash table this container resolves names with.
    pub closed spec fn spec_table(&self) -> H {
        self.hash_table
    }

    /// The cached row byte size.
    pub closed spec fn spec_entry_size(&self) -> u32 {
        self.entry_size
    }

    /// Field hashes are unique and every row is well-formed.
    pub open spec fn wf(&self) -> bool {
        spec_field_hashes_unique(self.spec_fields()) && (forall|j: int|
            0 <= j < self.spec_entries().len() ==> (#[trigger] self.spec_entries()[j]).wf())
    }

    /// Create a new empty container with the given hash table.
    pub fn new(hash_table: H) -> (r: Self)
        ensures
            r.wf(),
            r.spec_table() == hash_table,
            r.spec_fields() == Seq::<Field>::empty(),
            r.spec_entries() == Seq::<Entry>::empty(),
            r.spec_entry_size() == 0,
    {
        JMapInfo { hash_table, fields: Vec::new(), entries: Vec::new(), entry_size: 0 }
    }

    /// Assemble a container from already-validated parts.
    pub(crate) fn from_parts(hash_table: H, fields: Vec<Field>, entries: Vec<Entry>, entry_size: u32) -> (r: Self)
        requires
            spec_field_hashes_unique(fields@),
            forall|j: int| 0 <= j < entries@.len() ==> (#[trigger] entries@[j]).wf(),
        ensures
            r.wf(),
            r.spec_table() == hash_table,
            r.spec_fields() == fields@,
            r.spec_entries() == entries@,
            r.spec_entry_size() == entry_size,
    {
        JMapInfo { hash_table, fields, entries, entry_size }
    }

    /// Get a reference to the hash table.
    pub fn hash_table(&self) -> (r: &H)
        ensures
            *r == self.spec_table(),
    {
        &self.hash_table
    }

    /// Record a name in the hash table and return its hash.
    pub fn add_name(&mut self, name: &str) -> (h: u32)
        ensures
            h == old(self).spec_table().spec_calc(name@),
            final(self).spec_fields() == old(self).spec_fields(),
            final(self).spec_entries() == old(self).spec_entries(),
            final(self).spec_entry_size() == old(self).spec_entry_size(),
            forall|n: Seq<char>| #[trigger]
                final(self).spec_table().spec_calc(n) == old(self).spec_table().spec_calc(n),
            final(self).spec_table().spec_names() == if old(self).spec_table().spec_names().contains_key(h) {
                old(self).spec_table().spec_names()
            } else {
                old(self).spec_table().spec_names().insert(h, name@)
            },
            old(self).wf() ==> final(self).wf(),
    {
        self.hash_table.add(name)
    }

    /// Get the number of fields (columns).
    pub fn num_fields(&self) -> (r: usize)
        ensures
            r == self.spec_fields().len(),
    {
        self.fields.len()
    }

    /// Get the number of entries (rows).
    pub fn len(&self) -> (r: usize)
        ensures
            r == self.spec_entries().len(),
    {
        self.entries.len()
    }

    /// Check if there are no entries.
    pub fn is_empty(&self) -> (r: bool)
        ensures
            r == (self.spec_entries().len() == 0),
    {
        self.entries.is_empty()
    }

    /// All fields, in directory order.
    pub fn fields(&self) -> (r: &Vec<Field>)
        ensures
            r@ == self.spec_fields(),
    {
        &self.fields
    }

    /// All field hashes, in directory order.
    pub fn field_hashes(&self) -> (r: Vec<u32>)
        ensures
            r@.len() == self.spec_fields().len(),
            forall|i: int| 0 <= i < r@.len() ==> r@[i] == (#[trigger] self.spec_fields()[i]).hash,
    {
        let mut out: Vec<u32> = Vec::new();
        let mut i: usize = 0;
        while i < self.fields.len()
            invariant
                i <= self.fields@.len(),
                out@.len() == i,
                forall|j: int| 0 <= j < i ==> out@[j] == (#[trigger] self.fields@[j]).hash,
            decreases self.fields@.len() - i,
        {
            out.push(self.fields[i].hash);
            i = i + 1;
        }
        out
    }

    /// Get a field by hash.
    pub fn get_field_by_hash(&self, hash: u32) -> (r: Option<&Field>)
        ensures
            r matches Some(f) ==> spec_find_field(self.spec_fields(), hash) == Some(*f),
            r is None ==> spec_find_field(self.spec_fields(), hash) is None,
    {
        let mut i: usize = 0;
        while i < self.fields.len()
            invariant
                i <= self.fields@.len(),
                forall|j: int| 0 <= j < i ==> (#[trigger] self.fields@[j]).hash != hash,
            decreases self.fields@.len() - i,
        {
            if self.fields[i].hash == hash {
                proof {
                    lemma_field_first_match(self.fields@, hash, i as int);
                }
                return Some(&self.fields[i]);
            }
            i = i + 1;
        }
        proof {
            lemma_field_no_match(self.fields@, hash);
        }
        None
    }

    /// Get a field by name.
    pub fn get_field(&self, name: &str) -> (r: Option<&Field>)
        ensures
            r matches Some(f) ==> spec_find_field(
                self.spec_fields(),
                self.spec_table().spec_calc(name@),
            ) == Some(*f),
            r is None ==> spec_find_field(
                self.spec_fields(),
                self.spec_table().spec_calc(name@),
            ) is None,
    {
        let hash = self.hash_table.calc(name);
        self.get_field_by_hash(hash)
    }

    /// Check if a field exists by hash.
    pub fn contains_field_hash(&self, hash: u32) -> (r: bool)
        ensures
            r == (spec_find_field(self.spec_fields(), hash) is Some),
    {
        match self.get_field_by_hash(hash) {
            Some(_) => true,
            None => false,
        }
    }

    /// Check if a field exists by name.
    pub fn contains_field(&self, name: &str) -> (r: bool)
        ensures
            r == (spec_find_field(self.spec_fields(), self.spec_table().spec_calc(name@)) is Some),
    {
        let hash = self.hash_table.calc(name);
        self.contains_field_hash(hash)
    }

    /// The name of a field by its hash: the recorded name, or the bracketed
    /// hex fallback if the hash table does not know one.
    pub fn field_name(&self, hash: u32) -> (r: String)
        ensures
            self.spec_table().spec_names().contains_key(hash) ==> r@ == self.spec_table(
            ).spec_names()[hash],
            !self.spec_table().spec_names().contains_key(hash) ==> r@
                == crate::hash::spec_fallback_name(hash),
    {
        self.hash_table.find(hash)
    }

    /// Create a new field with the given name, type and default value, and
    /// retroactively give every existing row the default for it.
    ///
    /// Fails with a type mismatch if the default's variant cannot back the
    /// type, and with an already-exists error if the directory already has a
    /// field under the name's hash. The name is recorded in the hash table
    /// whenever the default is compatible, even if the field then turns out
    /// to exist.
    pub fn create_field(&mut self, name: &str, field_type: FieldType, default: FieldValue) -> (r:
        core::result::Result<(), JMapError>)
        requires
            old(self).wf(),
        ensures
            final(self).wf(),
            final(self).spec_entry_size() == old(self).spec_entry_size(),
            !spec_compatible(default, field_type) ==> {
                &&& r matches Err(JMapError::TypeMismatch { .. })
                &&& final(self).spec_fields() == old(self).spec_fields()
                &&& final(self).spec_entries() == old(self).spec_entries()
                &&& final(self).spec_table() == old(self).spec_table()
            },
            spec_compatible(default, field_type) ==> {
                let h = old(self).spec_table().spec_calc(name@);
                &&& (forall|n: Seq<char>| #[trigger]
                    final(self).spec_table().spec_calc(n) == old(self).spec_table().spec_calc(n))
                &&& final(self).spec_table().spec_names() == if old(self).spec_table(
                ).spec_names().contains_key(h) {
                    old(self).spec_table().spec_names()
                } else {
                    old(self).spec_table().spec_names().insert(h, name@)
                }
                &&& (spec_find_field(old(self).spec_fields(), h) is Some ==> {
                    &&& r matches Err(JMapError::FieldAlreadyExists(n)) && n@ == name@
                    &&& final(self).spec_fields() == old(self).spec_fields()
                    &&& final(self).spec_entries() == old(self).spec_entries()
                })
                &&& (spec_find_field(old(self).spec_fields(), h) is None ==> {
                    &&& r is Ok
                    &&& final(self).spec_fields().len() == old(self).spec_fields().len() + 1
                    &&& final(self).spec_fields().drop_last() == old(self).spec_fields()
                    &&& final(self).spec_fields().last() == (Field {
                        hash: h,
                        mask: crate::field::spec_default_mask(field_type),
                        offset: 0,
                        field_type,
                        shift: 0,
                        default,
                    })
                    &&& final(self).spec_entries().len() == old(self).spec_entries().len()
                    &&& (forall|j: int|
                        0 <= j < old(self).spec_entries().len() ==> (#[trigger] final(self).spec_entries()[j]).spec_pairs() == spec_set(
                            old(self).spec_entries()[j].spec_pairs(),
                            h,
                            default,
                        ))
                })
            },
    {
        if !default.is_compatible_with(field_type) {
            return Err(
                JMapError::TypeMismatch {
                    expected: field_type.csv_name(),
                    got: default.variant_name(),
                },
            );
        }
        let hash = self.hash_table.add(name);
        if self.contains_field_hash(hash) {
            return Err(JMapError::FieldAlreadyExists(name.to_owned()));
        }
        let field = Field::with_default(hash, field_type, default.duplicate());
        proof {
            lemma_field_no_match_all(self.fields@, hash);
        }
        self.fields.push(field);
        let ghost mid_entries = self.entries@;
        let ghost mid_fields = self.fields@;
        let ghost mid_table = self.hash_table;
        let mut j: usize = 0;
        while j < self.entries.len()
            invariant
                j <= self.entries@.len(),
                self.entries@.len() == mid_entries.len(),
                self.fields@ == mid_fields,
                self.hash_table == mid_table,
                self.entry_size == old(self).spec_entry_size(),
                forall|i: int| 0 <= i < mid_entries.len() ==> (#[trigger] mid_entries[i]).wf(),
                forall|i: int|
                    0 <= i < j ==> (#[trigger] self.entries@[i]).spec_pairs() == spec_set(
                        mid_entries[i].spec_pairs(),
                        hash,
                        default,
                    ) && self.entries@[i].wf(),
                forall|i: int| j <= i < mid_entries.len() ==> self.entries@[i] == mid_entries[i],
            decreases self.entries@.len() - j,
        {
            let mut tmp = Entry::new();
            self.entries.set_and_swap(j, &mut tmp);
            proof {
                assert(mid_entries[j as int].wf());
            }
            tmp.set_by_hash(hash, default.duplicate());
            self.entries.set_and_swap(j, &mut tmp);
            j = j + 1;
        }
        proof {
            assert(self.fields@.drop_last() =~= old(self).spec_fields());
            let post = self.fields@;
            let pre = old(self).spec_fields();
            assert forall|a: int, b: int| 0 <= a < b < post.len() implies (#[trigger] post[a]).hash
                != (#[trigger] post[b]).hash by {
                assert(post[a] == pre[a]);
                if b < pre.len() {
                    assert(post[b] == pre[b]);
                } else {
                    assert(post[b].hash == hash && pre[a].hash != hash);
                }
            }
        }
        Ok(())
    }

    /// Create a new field under an explicit hash (for callers that know a
    /// column only by its hash), and retroactively give every existing row
    /// the default for it. The hash table is left alone.
    pub fn create_field_by_hash(&mut self, hash: u32, field_type: FieldType, default: FieldValue) -> (r:
        core::result::Result<(), JMapError>)
        requires
            old(self).wf(),
        ensures
            final(self).wf(),
            final(self).spec_table() == old(self).spec_table(),
            final(self).spec_entry_size() == old(self).spec_entry_size(),
            !spec_compatible(default, field_type) ==> {
                &&& r matches Err(JMapError::TypeMismatch { .. })
                &&& final(self).spec_fields() == old(self).spec_fields()
                &&& final(self).spec_entries() == old(self).spec_entries()
            },
            spec_compatible(default, field_type) && spec_find_field(
                old(self).spec_fields(),
                hash,
            ) is Some ==> {
                &&& r matches Err(JMapError::FieldAlreadyExists(_))
                &&& final(self).spec_fields() == old(self).spec_fields()
                &&& final(self).spec_entries() == old(self).spec_entries()
            },
            spec_compatible(default, field_type) && spec_find_field(
                old(self).spec_fields(),
                hash,
            ) is None ==> {
                &&& r is Ok
                &&& final(self).spec_fields().len() == old(self).spec_fields().len() + 1
                &&& final(self).spec_fields().drop_last() == old(self).spec_fields()
                &&& final(self).spec_fields().last() == (Field {
                    hash,
                    mask: crate::field::spec_default_mask(field_type),
                    offset: 0,
                    field_type,
                    shift: 0,
                    default,
                })
                &&& final(self).spec_entries().len() == old(self).spec_entries().len()
                &&& (forall|j: int|
                    0 <= j < old(self).spec_entries().len() ==> (#[trigger] final(self).spec_entries()[j]).spec_pairs() == spec_set(
                        old(self).spec_entries()[j].spec_pairs(),
                        hash,
                        default,
                    ))
            },
    {
        if !default.is_compatible_with(field_type) {
            return Err(
                JMapError::TypeMismatch {
                    expected: field_type.csv_name(),
                    got: default.variant_name(),
                },
            );
        }
        if self.contains_field_hash(hash) {
            return Err(JMapError::FieldAlreadyExists(crate::hash::fallback_name_text(hash)));
        }
        let field = Field::with_default(hash, field_type, default.duplicate());
        proof {
            lemma_field_no_match_all(self.fields@, hash);
        }
        self.fields.push(field);
        let ghost mid_entries = self.entries@;
        let ghost mid_fields = self.fields@;
        let ghost mid_table = self.hash_table;
        let mut j: usize = 0;
        while j < self.entries.len()
            invariant
                j <= self.entries@.len(),
                self.entries@.len() == mid_entries.len(),
                self.fields@ == mid_fields,
                self.hash_table == mid_table,
                self.entry_size == old(self).spec_entry_size(),
                forall|i: int| 0 <= i < mid_entries.len() ==> (#[trigger] mid_entries[i]).wf(),
                forall|i: int|
                    0 <= i < j ==> (#[trigger] self.entries@[i]).spec_pairs() == spec_set(
                        mid_entries[i].spec_pairs(),
                        hash,
                        default,
                    ) && self.entries@[i].wf(),
                forall|i: int| j <= i < mid_entries.len() ==> self.entries@[i] == mid_entries[i],
            decreases self.entries@.len() - j,
        {
            let mut tmp = Entry::new();
            self.entries.set_and_swap(j, &mut tmp);
            proof {
                assert(mid_entries[j as int].wf());
            }
            tmp.set_by_hash(hash, default.duplicate());
            self.entries.set_and_swap(j, &mut tmp);
            j = j + 1;
        }
        proof {
            assert(self.fields@.drop_last() =~= old(self).spec_fields());
            let post = self.fields@;
            let pre = old(self).spec_fields();
            assert forall|a: int, b: int| 0 <= a < b < post.len() implies (#[trigger] post[a]).hash
                != (#[trigger] post[b]).hash by {
                assert(post[a] == pre[a]);
                if b < pre.len() {
                    assert(post[b] == pre[b]);
                } else {
                    assert(post[b].hash == hash && pre[a].hash != hash);
                }
            }
        }
        Ok(())
    }

    /// Remove a field from the directory (the last field takes its slot) and
    /// strip it from every row. Fails if no field carries the name's hash.
    pub fn drop_field(&mut self, name: &str) -> (r: core::result::Result<(), JMapError>)
        requires
            old(self).wf(),
        ensures
            final(self).wf(),
            final(self).spec_table() == old(self).spec_table(),
            final(self).spec_entry_size() == old(self).spec_entry_size(),
            ({
                let h = old(self).spec_table().spec_calc(name@);
                &&& (spec_find_field(old(self).spec_fields(), h) is None ==> {
                    &&& r matches Err(JMapError::FieldNotFound(n)) && n@ == name@
                    &&& final(self).spec_fields() == old(self).spec_fields()
                    &&& final(self).spec_entries() == old(self).spec_entries()
                })
                &&& (spec_find_field(old(self).spec_fields(), h) is Some ==> {
                    let i = spec_field_index(old(self).spec_fields(), h);
                    &&& r is Ok
                    &&& final(self).spec_fields() == old(self).spec_fields().update(
                        i,
                        old(self).spec_fields().last(),
                    ).drop_last()
                    &&& final(self).spec_entries().len() == old(self).spec_entries().len()
                    &&& (forall|j: int|
                        0 <= j < old(self).spec_entries().len() ==> (#[trigger] final(self).spec_entries()[j]).spec_pairs() == spec_unset(
                            old(self).spec_entries()[j].spec_pairs(),
                            h,
                        ))
                })
            }),
    {
        let hash = self.hash_table.calc(name);
        let idx = match find_field_index(&self.fields, hash) {
            Some(i) => i,
            None => {
                return Err(JMapError::FieldNotFound(name.to_owned()));
            },
        };
        self.fields.swap_remove(idx);
        let ghost mid_entries = self.entries@;
        let ghost mid_fields = self.fields@;
        let ghost mid_table = self.hash_table;
        let mut j: usize = 0;
        while j < self.entries.len()
            invariant
                j <= self.entries@.len(),
                self.entries@.len() == mid_entries.len(),
                self.fields@ == mid_fields,
                self.hash_table == mid_table,
                self.entry_size == old(self).spec_entry_size(),
                forall|i: int| 0 <= i < mid_entries.len() ==> (#[trigger] mid_entries[i]).wf(),
                forall|i: int|
                    0 <= i < j ==> (#[trigger] self.entries@[i]).spec_pairs() == spec_unset(
                        mid_entries[i].spec_pairs(),
                        hash,
                    ) && self.entries@[i].wf(),
                forall|i: int| j <= i < mid_entries.len() ==> self.entries@[i] == mid_entries[i],
            decreases self.entries@.len() - j,
        {
            let mut tmp = Entry::new();
            self.entries.set_and_swap(j, &mut tmp);
            proof {
                assert(mid_entries[j as int].wf());
            }
            tmp.remove_by_hash(hash);
            self.entries.set_and_swap(j, &mut tmp);
            j = j + 1;
        }
        proof {
            let pre = old(self).spec_fields();
            let post = self.fields@;
            assert(post =~= pre.update(idx as int, pre.last()).drop_last());
            assert forall|a: int, b: int| 0 <= a < b < post.len() implies (#[trigger] post[a]).hash
                != (#[trigger] post[b]).hash by {
                if a == idx as int {
                    assert(post[a] == pre[pre.len() - 1]);
                    assert(post[b] == pre[b]);
                } else if b == idx as int {
                    assert(post[b] == pre[pre.len() - 1]);
                    assert(post[a] == pre[a]);
                } else {
                    assert(post[a] == pre[a] && post[b] == pre[b]);
                }
            }
        }
        Ok(())
    }

    /// All entries, in order.
    pub fn entries(&self) -> (r: &Vec<Entry>)
        ensures
            r@ == self.spec_entries(),
    {
        &self.entries
    }

    /// Get an entry by index.
    pub fn get_entry(&self, index: usize) -> (r: Option<&Entry>)
        ensures
            index < self.spec_entries().len() ==> r == Some(
                &self.spec_entries()[index as int],
            ),
            index >= self.spec_entries().len() ==> r is None,
    {
        if index < self.entries.len() {
            Some(&self.entries[index])
        } else {
            None
        }
    }

    /// Replace an entry by index. Fails, naming the index and the current
    /// length, if the index is out of bounds.
    pub fn set_entry(&mut self, index: usize, entry: Entry) -> (r: core::result::Result<
        (),
        JMapError,
    >)
        ensures
            final(self).spec_fields() == old(self).spec_fields(),
            final(self).spec_table() == old(self).spec_table(),
            final(self).spec_entry_size() == old(self).spec_entry_size(),
            index < old(self).spec_entries().len() ==> r is Ok && final(self).spec_entries()
                == old(self).spec_entries().update(index as int, entry),
            index >= old(self).spec_entries().len() ==> (r matches Err(e) && e == (
            JMapError::EntryIndexOutOfBounds { index, len: old(self).spec_entries().len() as usize }))
                && final(self).spec_entries() == old(self).spec_entries(),
            old(self).wf() && entry.wf() ==> final(self).wf(),
    {
        if index >= self.entries.len() {
            let len = self.entries.len();
            return Err(JMapError::EntryIndexOutOfBounds { index, len });
        }
        self.entries.set(index, entry);
        Ok(())
    }

    /// Append a new row holding every declared field's default value, and
    /// return its index.
    pub fn create_entry(&mut self) -> (r: usize)
        requires
            old(self).wf(),
        ensures
            final(self).wf(),
            final(self).spec_fields() == old(self).spec_fields(),
            final(self).spec_table() == old(self).spec_table(),
            final(self).spec_entry_size() == old(self).spec_entry_size(),
            r == old(self).spec_entries().len(),
            final(self).spec_entries().len() == old(self).spec_entries().len() + 1,
            final(self).spec_entries().drop_last() == old(self).spec_entries(),
            final(self).spec_entries().last().spec_pairs() == spec_default_entry(
                old(self).spec_fields(),
            ),
    {
        let mut entry = Entry::with_capacity(self.fields.len());
        let mut i: usize = 0;
        proof {
            assert(spec_default_entry(self.fields@.take(0)) =~= Seq::<(u32, FieldValue)>::empty());
        }
        while i < self.fields.len()
            invariant
                i <= self.fields@.len(),
                self == old(self),
                entry.wf(),
                entry.spec_pairs() == spec_default_entry(self.fields@.take(i as int)),
            decreases self.fields@.len() - i,
        {
            entry.set_by_hash(self.fields[i].hash, self.fields[i].default.duplicate());
            i = i + 1;
            proof {
                let taken = self.fields@.take(i as int);
                assert(taken.drop_last() =~= self.fields@.take(i - 1));
                assert(taken.last() == self.fields@[i - 1]);
            }
        }
        proof {
            assert(self.fields@.take(self.fields@.len() as int) =~= self.fields@);
        }
        let r = self.entries.len();
        self.entries.push(entry);
        proof {
            assert(final(self).spec_entries().drop_last() =~= old(self).spec_entries());
        }
        r
    }

    /// Remove and return the entry at an index. Fails, naming the index and
    /// the current length, if the index is out of bounds.
    pub fn remove_entry(&mut self, index: usize) -> (r: core::result::Result<Entry, JMapError>)
        ensures
            final(self).spec_fields() == old(self).spec_fields(),
            final(self).spec_table() == old(self).spec_table(),
            final(self).spec_entry_size() == old(self).spec_entry_size(),
            index < old(self).spec_entries().len() ==> {
                &&& r matches Ok(e) && e == old(self).spec_entries()[index as int]
                &&& final(self).spec_entries() == old(self).spec_entries().remove(index as int)
            },
            index >= old(self).spec_entries().len() ==> (r matches Err(e) && e == (
            JMapError::EntryIndexOutOfBounds { index, len: old(self).spec_entries().len() as usize }))
                && final(self).spec_entries() == old(self).spec_entries(),
            old(self).wf() ==> final(self).wf(),
    {
        if index >= self.entries.len() {
            let len = self.entries.len();
            return Err(JMapError::EntryIndexOutOfBounds { index, len });
        }
        let e = self.entries.remove(index);
        Ok(e)
    }

    /// Remove all entries but keep the field definitions.
    pub fn clear_entries(&mut self)
        ensures
            final(self).spec_fields() == old(self).spec_fields(),
            final(self).spec_table() == old(self).spec_table(),
            final(self).spec_entry_size() == old(self).spec_entry_size(),
            final(self).spec_entries() == Seq::<Entry>::empty(),
            old(self).wf() ==> final(self).wf(),
    {
        self.entries.clear();
    }

    /// Recompute every field's row offset and the container's row size from
    /// the canonical layout: fields grouped by type rank (original order kept
    /// inside a rank), offsets assigned as the running byte total, and the
    /// row size rounded up to a multiple of four.
    pub fn recalculate_offsets(&mut self)
        requires
            old(self).wf(),
            spec_total_width(old(self).spec_fields()) <= 0xFFFF,
        ensures
            final(self).wf(),
            final(self).spec_table() == old(self).spec_table(),
            final(self).spec_entries() == old(self).spec_entries(),
            final(self).spec_entry_size() as int == spec_row_size(old(self).spec_fields()),
            final(self).spec_entry_size() % 4 == 0,
            final(self).spec_fields().len() == old(self).spec_fields().len(),
            forall|i: int|
                0 <= i < old(self).spec_fields().len() ==> (#[trigger] final(self).spec_fields()[i])
                    == (Field {
                    offset: (match spec_find_field(
                        spec_with_offsets(old(self).spec_fields()),
                        old(self).spec_fields()[i].hash,
                    ) {
                        Some(lf) => lf.offset,
                        None => old(self).spec_fields()[i].offset,
                    }),
                    ..old(self).spec_fields()[i]
                }),
    {
        let (laid, row_size) = layout_fields(&self.fields);
        let ghost pre = self.fields@;
        let ghost laidv = laid@;
        let mut i: usize = 0;
        while i < self.fields.len()
            invariant
                i <= self.fields@.len(),
                laid@ == laidv,
                self.fields@.len() == pre.len(),
                self.entries@ == old(self).spec_entries(),
                self.hash_table == old(self).spec_table(),
                self.entry_size == old(self).spec_entry_size(),
                forall|j: int| i <= j < pre.len() ==> #[trigger] self.fields@[j] == pre[j],
                forall|j: int|
                    0 <= j < i ==> (#[trigger] self.fields@[j]) == (Field {
                        offset: (match spec_find_field(laidv, pre[j].hash) {
                            Some(lf) => lf.offset,
                            None => pre[j].offset,
                        }),
                        ..pre[j]
                    }),
            decreases self.fields@.len() - i,
        {
            let h = self.fields[i].hash;
            match find_field_index(&laid, h) {
                Some(k) => {
                    let off = laid[k].offset;
                    let f = self.fields[i].duplicate();
                    self.fields.set(
                        i,
                        Field {
                            hash: f.hash,
                            mask: f.mask,
                            offset: off,
                            field_type: f.field_type,
                            shift: f.shift,
                            default: f.default,
                        },
                    );
                },
                None => {},
            }
            i = i + 1;
        }
        self.entry_size = row_size;
        proof {
            let post = self.fields@;
            assert forall|a: int, b: int| 0 <= a < b < post.len() implies (#[trigger] post[a]).hash
                != (#[trigger] post[b]).hash by {
                assert(post[a].hash == pre[a].hash && post[b].hash == pre[b].hash);
            }
        }
    }
}

} // verus!
