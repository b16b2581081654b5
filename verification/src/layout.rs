//! Row layout: the canonical on-wire ordering of fields and the offset and
//! row-size computation both the container and the codec use.

use vstd::prelude::*;
use crate::field::{spec_order, spec_size, Field};

verus! {

/// The fields of rank `r`, in their original relative order.
pub open spec fn spec_rank_filter(fields: Seq<Field>, r: u8) -> Seq<Field> {
    fields.filter(|f: Field| spec_order(f.field_type) == r)
}

/// The concatenation of the rank groups below `r`.
pub open spec fn spec_layout_prefix(fields: Seq<Field>, r: int) -> Seq<Field>
    decreases r,
{
    if r <= 0 {
        Seq::empty()
    } else {
        spec_layout_prefix(fields, r - 1) + spec_rank_filter(fields, (r - 1) as u8)
    }
}

/// The canonical on-wire ordering: fields grouped by layout rank, ranks
/// ascending, original relative order kept inside each rank (a stable sort
/// by rank).
pub open spec fn spec_layout_sorted(fields: Seq<Field>) -> Seq<Field> {
    spec_layout_prefix(fields, 7)
}

/// Total bytes the first `i` fields of a sorted run occupy.
pub open spec fn spec_prefix_width(sorted: Seq<Field>, i: int) -> int
    decreases i,
{
    if i <= 0 {
        0
    } else {
        spec_prefix_width(sorted, i - 1) + spec_size(sorted[i - 1].field_type)
    }
}

/// The bytes a row's fields occupy before alignment.
pub open spec fn spec_total_width(fields: Seq<Field>) -> int {
    spec_prefix_width(spec_layout_sorted(fields), spec_layout_sorted(fields).len() as int)
}

/// The row size: the total width rounded up to the next multiple of four.
pub open spec fn spec_row_size(fields: Seq<Field>) -> int {
    ((spec_total_width(fields) + 3) / 4) * 4
}

/// The sorted run with each field's offset set to the running byte total of
/// the fields before it.
pub open spec fn spec_with_offsets(fields: Seq<Field>) -> Seq<Field> {
    let sorted = spec_layout_sorted(fields);
    Seq::new(
        sorted.len(),
        |k: int| Field { offset: spec_prefix_width(sorted, k) as u16, ..sorted[k] },
    )
}

/// Prefix widths only grow along a sorted run.
pub proof fn lemma_prefix_width_mono(sorted: Seq<Field>, i: int, j: int)
    requires
        0 <= i <= j,
    ensures
        spec_prefix_width(sorted, i) <= spec_prefix_width(sorted, j),
    decreases j - i,
{
    if i < j {
        lemma_prefix_width_mono(sorted, i, j - 1);
    }
}

/// A laid-out field's byte window ends where the next one begins: windows of
/// distinct fields never overlap.
pub proof fn lemma_offsets_disjoint(fields: Seq<Field>, k1: int, k2: int)
    requires
        0 <= k1 < k2 < spec_with_offsets(fields).len(),
        spec_total_width(fields) <= 0xFFFF,
    ensures
        spec_with_offsets(fields)[k1].offset + spec_size(spec_with_offsets(fields)[k1].field_type)
            <= spec_with_offsets(fields)[k2].offset,
        spec_with_offsets(fields)[k2].offset + spec_size(spec_with_offsets(fields)[k2].field_type)
            <= spec_total_width(fields),
{
    let sorted = spec_layout_sorted(fields);
    lemma_prefix_width_mono(sorted, k1 + 1, k2);
    lemma_prefix_width_mono(sorted, k2 + 1, sorted.len() as int);
    lemma_prefix_width_mono(sorted, 0, k1);
}

/// Every prefix width is nonnegative.
pub proof fn lemma_prefix_width_nonneg(sorted: Seq<Field>, i: int)
    ensures
        spec_prefix_width(sorted, i) >= 0,
{
    lemma_prefix_width_mono(sorted, 0, if i < 0 {
        0
    } else {
        i
    });
}

/// The fields of one rank, in their original order.
fn rank_pass(fields: &Vec<Field>, rank: u8) -> (r: Vec<Field>)
    ensures
        r@ == spec_rank_filter(fields@, rank),
{
    let mut out: Vec<Field> = Vec::new();
    let mut i: usize = 0;
    proof {
        assert(fields@.take(0).filter(|f: Field| spec_order(f.field_type) == rank)
            =~= Seq::<Field>::empty());
    }
    while i < fields.len()
        invariant
            i <= fields@.len(),
            out@ == fields@.take(i as int).filter(|f: Field| spec_order(f.field_type) == rank),
        decreases fields@.len() - i,
    {
        let ghost pre = out@;
        if fields[i].field_type.order() == rank {
            out.push(fields[i].duplicate());
        }
        i = i + 1;
        proof {
            reveal_with_fuel(Seq::<Field>::filter, 2);
            let p = |f: Field| spec_order(f.field_type) == rank;
            let taken = fields@.take(i as int);
            assert(taken.drop_last() =~= fields@.take(i - 1));
            assert(taken.last() == fields@[i - 1]);
            if p(fields@[i - 1]) {
                assert(taken.filter(p) =~= pre.push(fields@[i - 1]));
            } else {
                assert(taken.filter(p) =~= pre);
            }
        }
    }
    proof {
        assert(fields@.take(fields@.len() as int) =~= fields@);
    }
    out
}

/// Compute the canonical field layout: the fields sorted by rank with packed
/// offsets assigned, and the aligned row size.
pub fn layout_fields(fields: &Vec<Field>) -> (r: (Vec<Field>, u32))
    requires
        spec_total_width(fields@) <= 0xFFFF,
    ensures
        r.0@ == spec_with_offsets(fields@),
        r.1 as int == spec_row_size(fields@),
        r.1 % 4 == 0,
        r.1 <= 0x10002,
{
    let mut sorted: Vec<Field> = Vec::new();
    let mut rank: u8 = 0;
    proof {
        assert(sorted@ =~= spec_layout_prefix(fields@, 0));
    }
    while rank < 7
        invariant
            rank <= 7,
            sorted@ == spec_layout_prefix(fields@, rank as int),
        decreases 7 - rank,
    {
        let mut pass = rank_pass(fields, rank);
        let ghost pre = sorted@;
        sorted.append(&mut pass);
        rank = rank + 1;
        proof {
            assert(sorted@ =~= spec_layout_prefix(fields@, rank as int));
        }
    }
    let ghost srt = spec_layout_sorted(fields@);
    assert(sorted@ == srt);
    let mut off: u16 = 0;
    let mut k: usize = 0;
    while k < sorted.len()
        invariant
            k <= sorted@.len(),
            sorted@.len() == srt.len(),
            off as int == spec_prefix_width(srt, k as int),
            spec_prefix_width(srt, srt.len() as int) <= 0xFFFF,
            forall|j: int| k <= j < srt.len() ==> sorted@[j] == srt[j],
            forall|j: int|
                0 <= j < k ==> sorted@[j] == (Field {
                    offset: spec_prefix_width(srt, j) as u16,
                    ..srt[j]
                }),
        decreases sorted@.len() - k,
    {
        proof {
            lemma_prefix_width_mono(srt, k + 1, srt.len() as int);
            lemma_prefix_width_nonneg(srt, k as int);
        }
        let f = sorted[k].duplicate();
        let w = f.field_type.size();
        sorted.set(
            k,
            Field {
                hash: f.hash,
                mask: f.mask,
                offset: off,
                field_type: f.field_type,
                shift: f.shift,
                default: f.default,
            },
        );
        off = off + (w as u16);
        k = k + 1;
    }
    proof {
        assert(sorted@ =~= spec_with_offsets(fields@));
    }
    let total: u32 = off as u32;
    let row_size: u32 = (total + 3) & 0xFFFFFFFCu32;
    assert(row_size == ((total + 3) / 4) * 4 && row_size % 4 == 0 && row_size <= 0x10002)
        by (bit_vector)
        requires
            row_size == vstd::wrapping::u32_specs::wrapping_add(total, 3) & 0xFFFFFFFCu32,
            total <= 0xFFFF,
    ;
    (sorted, row_size)
}

/// Appending a field appends it to its own rank group and leaves the others
/// alone.
proof fn lemma_rank_filter_push(s: Seq<Field>, f: Field, r: u8)
    ensures
        spec_rank_filter(s.push(f), r) == if spec_order(f.field_type) == r {
            spec_rank_filter(s, r).push(f)
        } else {
            spec_rank_filter(s, r)
        },
{
    reveal_with_fuel(Seq::<Field>::filter, 2);
    let p = |g: Field| spec_order(g.field_type) == r;
    assert(s.push(f).drop_last() =~= s);
    assert(s.push(f).last() == f);
}

/// The rank groups below `r` grow by exactly the appended field when its
/// rank lies below `r`.
proof fn lemma_layout_prefix_push(s: Seq<Field>, f: Field, r: int)
    requires
        0 <= r <= 7,
    ensures
        spec_layout_prefix(s.push(f), r).len() == spec_layout_prefix(s, r).len() + if spec_order(
            f.field_type,
        ) < r {
            1int
        } else {
            0int
        },
    decreases r,
{
    if r > 0 {
        lemma_layout_prefix_push(s, f, r - 1);
        lemma_rank_filter_push(s, f, (r - 1) as u8);
    }
}

/// The canonical ordering is a rearrangement: it has exactly one slot per
/// field.
pub proof fn lemma_layout_len(fields: Seq<Field>)
    ensures
        spec_layout_sorted(fields).len() == fields.len(),
        spec_with_offsets(fields).len() == fields.len(),
    decreases fields.len(),
{
    if fields.len() == 0 {
        lemma_layout_prefix_empty(fields, 7);
    } else {
        let s = fields.drop_last();
        let f = fields.last();
        assert(fields =~= s.push(f));
        lemma_layout_len(s);
        assert(spec_order(f.field_type) < 7);
        lemma_layout_prefix_push(s, f, 7);
    }
}

/// Every rank group of an empty run is empty.
proof fn lemma_layout_prefix_empty(fields: Seq<Field>, r: int)
    requires
        fields.len() == 0,
        0 <= r <= 7,
    ensures
        spec_layout_prefix(fields, r).len() == 0,
    decreases r,
{
    if r > 0 {
        lemma_layout_prefix_empty(fields, r - 1);
        reveal_with_fuel(Seq::<Field>::filter, 1);
        assert(spec_rank_filter(fields, (r - 1) as u8).len() == 0);
    }
}

/// An aligned row is at least as wide as its fields.
pub proof fn lemma_row_size_covers(fields: Seq<Field>)
    ensures
        spec_total_width(fields) <= spec_row_size(fields),
        spec_row_size(fields) % 4 == 0,
{
    let w = spec_total_width(fields);
    crate::layout::lemma_prefix_width_nonneg(spec_layout_sorted(fields), spec_layout_sorted(
        fields,
    ).len() as int);
    assert(((w + 3) / 4) * 4 >= w && (((w + 3) / 4) * 4) % 4 == 0) by (nonlinear_arith)
        requires
            w >= 0,
    ;
}

} // verus!
