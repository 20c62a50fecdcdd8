use crate::util::{
    align_up, is_power_of_two, lemma_round_up_bounds, lemma_round_up_exceeds_usize,
    lemma_round_up_least, round_up,
};
use vstd::arithmetic::power2::is_pow2;
use vstd::prelude::*;

verus! {

/// The storage footprint and placement constraint of one field, in bytes.
#[derive(Clone, Copy, Debug, PartialEq, Eq, Hash)]
pub struct FieldDescriptor {
    pub size: usize,
    /// Must be a power of two.
    pub alignment: usize,
}

/// Why a sequence of fields has no layout.
#[derive(Clone, Copy, Debug, PartialEq, Eq, Hash)]
pub enum LayoutError {
    /// The field at `index` is the first whose alignment is not a power of two
    /// (zero included).
    InvalidAlignment { index: usize },
    /// The last field would end past `usize::MAX`.
    Overflow,
}

/// Offset just past the last field when `fields` are placed in order, each at
/// the end of the one before it rounded up to its own alignment.
pub open spec fn layout_end(fields: Seq<FieldDescriptor>) -> int
    decreases fields.len(),
{
    if fields.len() == 0 {
        0
    } else {
        let last = fields.last();
        round_up(layout_end(fields.drop_last()), last.alignment as int) + last.size
    }
}

/// The offset of each field of `fields` under sequential placement.
pub open spec fn layout_offsets(fields: Seq<FieldDescriptor>) -> Seq<int>
    decreases fields.len(),
{
    if fields.len() == 0 {
        Seq::empty()
    } else {
        let rest = fields.drop_last();
        layout_offsets(rest).push(round_up(layout_end(rest), fields.last().alignment as int))
    }
}

/// Every alignment is a power of two.
pub open spec fn alignments_valid(fields: Seq<FieldDescriptor>) -> bool {
    forall|i: int| 0 <= i < fields.len() ==> is_pow2(#[trigger] fields[i].alignment as int)
}

/// `index` is the first field whose alignment is not a power of two.
pub open spec fn is_first_invalid_alignment(fields: Seq<FieldDescriptor>, index: int) -> bool {
    &&& 0 <= index < fields.len()
    &&& !is_pow2(fields[index].alignment as int)
    &&& forall|j: int| 0 <= j < index ==> is_pow2(#[trigger] fields[j].alignment as int)
}

/// One offset per field.
pub proof fn lemma_offsets_len(fields: Seq<FieldDescriptor>)
    ensures
        layout_offsets(fields).len() == fields.len(),
    decreases fields.len(),
{
    if fields.len() > 0 {
        lemma_offsets_len(fields.drop_last());
    }
}

/// Laying out one more field of `fields` appends its offset and moves the end.
pub proof fn lemma_prefix_step(fields: Seq<FieldDescriptor>, i: int)
    requires
        0 <= i < fields.len(),
    ensures
        layout_offsets(fields.take(i + 1)) == layout_offsets(fields.take(i)).push(
            round_up(layout_end(fields.take(i)), fields[i].alignment as int),
        ),
        layout_end(fields.take(i + 1)) == round_up(
            layout_end(fields.take(i)),
            fields[i].alignment as int,
        ) + fields[i].size,
{
    assert(fields.take(i + 1).drop_last() =~= fields.take(i));
}

/// Where field `i` starts: the end of the fields before it, rounded up.
pub proof fn lemma_offset_at(fields: Seq<FieldDescriptor>, i: int)
    requires
        0 <= i < fields.len(),
    ensures
        layout_offsets(fields).len() == fields.len(),
        layout_offsets(fields)[i] == round_up(
            layout_end(fields.take(i)),
            fields[i].alignment as int,
        ),
    decreases fields.len(),
{
    lemma_offsets_len(fields);
    let rest = fields.drop_last();
    if i == fields.len() - 1 {
        assert(rest =~= fields.take(i));
        lemma_offsets_len(rest);
    } else {
        lemma_offset_at(rest, i);
        assert(rest.take(i) =~= fields.take(i));
    }
}

/// Where field `i` ends: its offset plus its size.
pub proof fn lemma_end_step(fields: Seq<FieldDescriptor>, i: int)
    requires
        0 <= i < fields.len(),
    ensures
        layout_end(fields.take(i + 1)) == layout_offsets(fields)[i] + fields[i].size,
{
    lemma_offset_at(fields, i);
    assert(fields.take(i + 1).drop_last() =~= fields.take(i));
}

/// The end of a prefix never decreases as the prefix grows.
pub proof fn lemma_end_monotone(fields: Seq<FieldDescriptor>, i: int, j: int)
    requires
        alignments_valid(fields),
        0 <= i <= j <= fields.len(),
    ensures
        0 <= layout_end(fields.take(i)) <= layout_end(fields.take(j)),
    decreases j,
{
    if j == 0 {
        assert(fields.take(0) =~= Seq::<FieldDescriptor>::empty());
    } else {
        if i == j {
            lemma_end_monotone(fields, j - 1, j - 1);
        } else {
            lemma_end_monotone(fields, i, j - 1);
        }
        lemma_end_step(fields, j - 1);
        lemma_offset_at(fields, j - 1);
        reveal(is_pow2);
        assert(is_pow2(fields[j - 1].alignment as int));
        lemma_round_up_bounds(layout_end(fields.take(j - 1)), fields[j - 1].alignment as int);
    }
}

/// Where field `i` may start at the earliest: the end of the field before it,
/// or zero for the first field.
pub open spec fn prior_end(fields: Seq<FieldDescriptor>, i: int) -> int {
    if i == 0 {
        0
    } else {
        layout_offsets(fields)[i - 1] + fields[i - 1].size
    }
}

/// Field `i` starts at the end of the field before it, rounded up to its own
/// alignment.
proof fn lemma_offset_from_prior_end(fields: Seq<FieldDescriptor>, i: int)
    requires
        alignments_valid(fields),
        0 <= i < fields.len(),
    ensures
        layout_offsets(fields).len() == fields.len(),
        prior_end(fields, i) >= 0,
        fields[i].alignment > 0,
        layout_offsets(fields)[i] == round_up(prior_end(fields, i), fields[i].alignment as int),
{
    lemma_offset_at(fields, i);
    lemma_end_monotone(fields, 0, i);
    if i == 0 {
        assert(fields.take(0) =~= Seq::<FieldDescriptor>::empty());
    } else {
        lemma_end_step(fields, i - 1);
    }
    reveal(is_pow2);
    assert(is_pow2(fields[i].alignment as int));
}

/// The first field of a non-empty layout starts at offset zero.
pub proof fn lemma_first_offset_zero(fields: Seq<FieldDescriptor>)
    requires
        alignments_valid(fields),
        fields.len() > 0,
    ensures
        layout_offsets(fields)[0] == 0,
{
    lemma_offset_from_prior_end(fields, 0);
    let a = fields[0].alignment as int;
    assert((0 + a - 1) / a == 0) by (nonlinear_arith)
        requires
            a > 0,
    ;
}

/// No field overlaps the one before it: each starts at or after the end of its
/// predecessor.
pub proof fn lemma_offsets_no_overlap(fields: Seq<FieldDescriptor>)
    requires
        alignments_valid(fields),
    ensures
        forall|i: int|
            0 < i < fields.len() ==> #[trigger] layout_offsets(fields)[i] >= layout_offsets(
                fields,
            )[i - 1] + fields[i - 1].size,
{
    assert forall|i: int| 0 < i < fields.len() implies #[trigger] layout_offsets(fields)[i]
        >= layout_offsets(fields)[i - 1] + fields[i - 1].size by {
        lemma_offset_from_prior_end(fields, i);
        lemma_round_up_bounds(prior_end(fields, i), fields[i].alignment as int);
    }
}

/// Every field starts at a multiple of its alignment.
pub proof fn lemma_offsets_aligned(fields: Seq<FieldDescriptor>)
    requires
        alignments_valid(fields),
    ensures
        forall|i: int|
            0 <= i < fields.len() ==> #[trigger] layout_offsets(fields)[i]
                % fields[i].alignment as int == 0,
{
    assert forall|i: int| 0 <= i < fields.len() implies #[trigger] layout_offsets(fields)[i]
        % fields[i].alignment as int == 0 by {
        lemma_offset_from_prior_end(fields, i);
        lemma_round_up_bounds(prior_end(fields, i), fields[i].alignment as int);
    }
}

/// No padding is wasted: each field starts at the end of the one before it
/// rounded up to its alignment, and no multiple of its alignment lies between
/// that end and its offset.
pub proof fn lemma_offsets_tight(fields: Seq<FieldDescriptor>)
    requires
        alignments_valid(fields),
    ensures
        forall|i: int|
            0 <= i < fields.len() ==> #[trigger] layout_offsets(fields)[i] == round_up(
                prior_end(fields, i),
                fields[i].alignment as int,
            ),
        forall|i: int, v: int|
            0 <= i < fields.len() && prior_end(fields, i) <= v < #[trigger] layout_offsets(
                fields,
            )[i] ==> #[trigger] (v % fields[i].alignment as int) != 0,
{
    assert forall|i: int| 0 <= i < fields.len() implies #[trigger] layout_offsets(fields)[i]
        == round_up(prior_end(fields, i), fields[i].alignment as int) by {
        lemma_offset_from_prior_end(fields, i);
    }
    assert forall|i: int, v: int|
        0 <= i < fields.len() && prior_end(fields, i) <= v < #[trigger] layout_offsets(
            fields,
        )[i] implies #[trigger] (v % fields[i].alignment as int) != 0 by {
        lemma_offset_from_prior_end(fields, i);
        if v % fields[i].alignment as int == 0 {
            lemma_round_up_least(prior_end(fields, i), fields[i].alignment as int, v);
        }
    }
}

/// Lays `fields` out in order, C style: each field starts at the smallest
/// multiple of its alignment at or after the end of the field before it.
///
/// Alignments are checked first; a layout that does not fit in `usize` is an
/// error, never a wrapped value.
pub fn compute_offsets(fields: &[FieldDescriptor]) -> (r: Result<Vec<usize>, LayoutError>)
    ensures
        match r {
            Ok(offsets) => {
                &&& alignments_valid(fields@)
                &&& layout_end(fields@) <= usize::MAX
                &&& offsets@.map_values(|o: usize| o as int) == layout_offsets(fields@)
            },
            Err(LayoutError::InvalidAlignment { index }) => is_first_invalid_alignment(
                fields@,
                index as int,
            ),
            Err(LayoutError::Overflow) => {
                &&& alignments_valid(fields@)
                &&& layout_end(fields@) > usize::MAX
            },
        },
{
    let mut i: usize = 0;
    while i < fields.len()
        invariant
            i <= fields@.len(),
            forall|j: int| 0 <= j < i ==> is_pow2(#[trigger] fields@[j].alignment as int),
        decreases fields@.len() - i,
    {
        if !is_power_of_two(fields[i].alignment) {
            return Err(LayoutError::InvalidAlignment { index: i });
        }
        i = i + 1;
    }
    let mut offsets: Vec<usize> = Vec::with_capacity(fields.len());
    let mut cursor: usize = 0;
    let mut i: usize = 0;
    while i < fields.len()
        invariant
            i <= fields@.len(),
            alignments_valid(fields@),
            cursor == layout_end(fields@.take(i as int)),
            offsets@.map_values(|o: usize| o as int) == layout_offsets(fields@.take(i as int)),
        decreases fields@.len() - i,
    {
        let field = fields[i];
        let ghost before = offsets@;
        proof {
            lemma_prefix_step(fields@, i as int);
            assert(is_pow2(field.alignment as int));
            lemma_end_monotone(fields@, i + 1, fields@.len() as int);
            assert(fields@.take(fields@.len() as int) =~= fields@);
            reveal(is_pow2);
        }
        if cursor > usize::MAX - (field.alignment - 1) {
            proof {
                lemma_round_up_exceeds_usize(cursor, field.alignment);
            }
            return Err(LayoutError::Overflow);
        }
        let offset = align_up(cursor, field.alignment);
        if offset > usize::MAX - field.size {
            return Err(LayoutError::Overflow);
        }
        offsets.push(offset);
        cursor = offset + field.size;
        i = i + 1;
        proof {
            assert(offsets@.map_values(|o: usize| o as int) =~= before.map_values(
                |o: usize| o as int,
            ).push(offset as int));
        }
    }
    proof {
        assert(fields@.take(fields@.len() as int) =~= fields@);
    }
    Ok(offsets)
}

/// `compute_offsets` is a function of its input: two calls on equal field
/// sequences give the same offsets, or the same error.
pub proof fn lemma_compute_offsets_deterministic(
    a: &[FieldDescriptor],
    b: &[FieldDescriptor],
    ra: Result<Vec<usize>, LayoutError>,
    rb: Result<Vec<usize>, LayoutError>,
)
    requires
        a@ == b@,
        call_ensures(compute_offsets, (a,), ra),
        call_ensures(compute_offsets, (b,), rb),
    ensures
        match (ra, rb) {
            (Ok(x), Ok(y)) => x@ == y@,
            (Err(x), Err(y)) => x == y,
            _ => false,
        },
{
    match (ra, rb) {
        (Ok(x), Ok(y)) => {
            assert(x@.map_values(|o: usize| o as int).len() == y@.map_values(
                |o: usize| o as int,
            ).len());
            assert forall|i: int| 0 <= i < x@.len() implies x@[i] == y@[i] by {
                assert(x@.map_values(|o: usize| o as int)[i] == y@.map_values(
                    |o: usize| o as int,
                )[i]);
            }
            assert(x@ =~= y@);
        },
        (Err(LayoutError::InvalidAlignment { index: i }), Err(LayoutError::InvalidAlignment { index: j })) => {
            assert(!is_pow2(a@[i as int].alignment as int));
            assert(!is_pow2(a@[j as int].alignment as int));
        },
        _ => {},
    }
}

} // verus!
