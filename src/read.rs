//! Decoding a column from its pages, in storage order.
use vstd::prelude::*;

use crate::array::PrimitiveArray;
use crate::datatypes::{primitive_of, DataType};
use crate::error::ArrowError;
use crate::nested_utils::{
    close_offsets, decode_page, extend_offsets, lemma_decode_page_is_run, lemma_run_concat,
    lemma_run_shape, levels_are_valid, run_slots, stack_model, start_model, DecodeState, Nested,
    NestedLevel,
};

verus! {

/// One page of a column: its level streams, and its leaf slots as the leaf
/// decoder produced them (a value and a validity bit per slot).
#[derive(Debug)]
pub struct DecodedPage {
    pub rep_levels: Vec<u32>,
    pub def_levels: Vec<u32>,
    pub values: Vec<i64>,
    pub validity: Vec<bool>,
}

/// The leaf decoder gave one validity bit per value.
pub open spec fn leaves_are_aligned(page: DecodedPage) -> bool {
    page.values@.len() == page.validity@.len()
}

/// The repetition levels of the first `k` pages, joined in storage order.
pub open spec fn reps_upto(pages: Seq<DecodedPage>, k: int) -> Seq<u32>
    decreases k,
{
    if k <= 0 {
        Seq::empty()
    } else {
        reps_upto(pages, k - 1) + pages[k - 1].rep_levels@
    }
}

/// The definition levels of the first `k` pages, joined in storage order.
pub open spec fn defs_upto(pages: Seq<DecodedPage>, k: int) -> Seq<u32>
    decreases k,
{
    if k <= 0 {
        Seq::empty()
    } else {
        defs_upto(pages, k - 1) + pages[k - 1].def_levels@
    }
}

proof fn lemma_levels_upto_len(pages: Seq<DecodedPage>, k: int, n: int)
    requires
        0 <= k <= n <= pages.len(),
        forall|i: int|
            0 <= i < pages.len() ==> (#[trigger] pages[i]).rep_levels@.len() == pages[i].def_levels@.len(),
    ensures
        reps_upto(pages, k).len() == defs_upto(pages, k).len(),
        reps_upto(pages, k).len() <= reps_upto(pages, n).len(),
    decreases n,
{
    if n > 0 {
        if k < n {
            lemma_levels_upto_len(pages, k, n - 1);
        } else {
            lemma_levels_upto_len(pages, n - 1, n - 1);
        }
    }
}

/// The leaf values of the first `k` pages, one after the other.
pub open spec fn values_upto(pages: Seq<DecodedPage>, k: int) -> Seq<i64>
    decreases k,
{
    if k <= 0 {
        Seq::empty()
    } else {
        values_upto(pages, k - 1) + pages[k - 1].values@
    }
}

/// The leaf validity of the first `k` pages, one after the other.
pub open spec fn validity_upto(pages: Seq<DecodedPage>, k: int) -> Seq<bool>
    decreases k,
{
    if k <= 0 {
        Seq::empty()
    } else {
        validity_upto(pages, k - 1) + pages[k - 1].validity@
    }
}

/// How many slots of `s` are null.
pub open spec fn null_count(s: Seq<bool>) -> nat
    decreases s.len(),
{
    if s.len() == 0 {
        0
    } else {
        null_count(s.drop_last()) + if s.last() { 0nat } else { 1nat }
    }
}

/// The physical type of the leaves: a dictionary's values, else the type itself.
pub open spec fn leaf_type(data_type: DataType) -> DataType {
    match data_type {
        DataType::Dictionary(values) => *values,
        _ => data_type,
    }
}

/// A sequence with a null slot has a positive null count.
proof fn lemma_null_at(s: Seq<bool>, i: int)
    requires
        0 <= i < s.len(),
        !s[i],
    ensures
        null_count(s) > 0,
    decreases s.len(),
{
    if i < s.len() - 1 {
        lemma_null_at(s.drop_last(), i);
    }
}

fn has_null(validity: &Vec<bool>) -> (r: bool)
    ensures
        r <==> null_count(validity@) > 0,
{
    let mut i: usize = 0;
    while i < validity.len()
        invariant
            i <= validity@.len(),
            null_count(validity@.take(i as int)) == 0,
        decreases validity@.len() - i,
    {
        assert(validity@.take(i + 1).drop_last() =~= validity@.take(i as int));
        if !validity[i] {
            proof {
                lemma_null_at(validity@, i as int);
            }
            return true;
        }
        i = i + 1;
    }
    assert(validity@.take(i as int) =~= validity@);
    false
}

/// Decodes a column's pages in order into a flat array of its leaves.
///
/// The innermost level of `nested` is popped first: it says whether the
/// column is nullable. If no level is left, the column is flat and only the
/// leaves are gathered. Otherwise the level streams of every page, in storage
/// order, extend the stack through one running decode state, and the levels
/// are closed once after the last page; the caller then materializes them.
/// The result holds a validity only where some leaf is null. A leaf type that
/// is not primitive is refused before any page is read.
pub fn iter_to_array(
    pages: &Vec<DecodedPage>,
    data_type: DataType,
    nested: &mut Vec<NestedLevel>,
    max_rep: u32,
    max_def: u32,
) -> (r: Result<PrimitiveArray<i64>, ArrowError>)
    requires
        old(nested)@.len() > 0,
        forall|i: int| 0 <= i < pages@.len() ==> leaves_are_aligned(#[trigger] pages@[i]),
        old(nested)@.len() > 1 ==> forall|i: int|
            0 <= i < pages@.len() ==> levels_are_valid(
                (#[trigger] pages@[i]).rep_levels@,
                pages@[i].def_levels@,
                max_rep,
                max_def,
            ),
        old(nested)@.len() > 1 ==> reps_upto(pages@, pages@.len() as int).len() <= i64::MAX,
    ensures
        primitive_of(leaf_type(data_type)) is None ==> {
            &&& (r matches Err(ArrowError::NotYetImplemented(t)) && t == leaf_type(data_type))
            &&& final(nested)@ == old(nested)@
        },
        primitive_of(leaf_type(data_type)) is Some ==> (r matches Ok(a) && {
            &&& a.data_type == primitive_of(leaf_type(data_type)).unwrap()
            &&& a.values@ == values_upto(pages@, pages@.len() as int)
            &&& (a.validity is Some <==> null_count(validity_upto(pages@, pages@.len() as int)) > 0)
            &&& (a.validity is Some ==> a.validity.unwrap()@ == validity_upto(pages@, pages@.len() as int))
        }),
        primitive_of(leaf_type(data_type)) is Some ==> ({
            let rest = stack_model(old(nested)@.drop_last());
            let is_nullable = old(nested)@.last().model().nullable;
            stack_model(final(nested)@) == if rest.len() == 0 {
                rest
            } else {
                decode_page(
                    rest,
                    reps_upto(pages@, pages@.len() as int),
                    defs_upto(pages@, pages@.len() as int),
                    is_nullable,
                    max_rep,
                    max_def,
                )
            }
        }),
{
    let data_type = match data_type {
        DataType::Dictionary(values) => *values,
        other => other,
    };
    let primitive = match data_type.to_primitive() {
        Some(p) => p,
        None => {
            return Err(ArrowError::NotYetImplemented(data_type));
        },
    };
    let mut values: Vec<i64> = Vec::new();
    let mut validity: Vec<bool> = Vec::new();
    let ghost n_pages = pages@.len() as int;
    let level = nested.pop().unwrap();
    let is_nullable = level.is_nullable();
    let ghost rest = stack_model(nested@);
    let flat = nested.len() == 0;
    let mut state = DecodeState::new(nested.len());
    assert(state.model(rest).counts =~= start_model(rest).counts);
    assert(state.model(rest) == start_model(rest));
    let mut k: usize = 0;
    while k < pages.len()
        invariant
            k <= pages@.len(),
            n_pages == pages@.len(),
            forall|i: int| 0 <= i < pages@.len() ==> leaves_are_aligned(#[trigger] pages@[i]),
            !flat ==> forall|i: int|
                0 <= i < pages@.len() ==> levels_are_valid(
                    (#[trigger] pages@[i]).rep_levels@,
                    pages@[i].def_levels@,
                    max_rep,
                    max_def,
                ),
            !flat ==> reps_upto(pages@, n_pages).len() <= i64::MAX,
            values@ == values_upto(pages@, k as int),
            validity@ == validity_upto(pages@, k as int),
            flat == (rest.len() == 0),
            state.values_count@.len() == nested@.len(),
            flat ==> stack_model(nested@) == rest,
            !flat ==> state.model(stack_model(nested@)) == run_slots(
                start_model(rest),
                reps_upto(pages@, k as int),
                defs_upto(pages@, k as int),
                reps_upto(pages@, k as int).len() as int,
                is_nullable,
                max_rep,
                max_def,
            ),
        decreases pages@.len() - k,
    {
        let page = &pages[k];
        if !flat {
            proof {
                assert forall|i: int| 0 <= i < pages@.len() implies (#[trigger] pages@[i]).rep_levels@.len()
                    == pages@[i].def_levels@.len() by {
                    assert(levels_are_valid(pages@[i].rep_levels@, pages@[i].def_levels@, max_rep, max_def));
                }
                assert(levels_are_valid(pages@[k as int].rep_levels@, pages@[k as int].def_levels@, max_rep, max_def));
                lemma_levels_upto_len(pages@, k as int, n_pages);
                lemma_levels_upto_len(pages@, k + 1, n_pages);
                let reps_k = reps_upto(pages@, k as int);
                lemma_run_shape(start_model(rest), reps_k, defs_upto(pages@, k as int), reps_k.len() as int, is_nullable, max_rep, max_def);
                assert(reps_upto(pages@, k + 1) == reps_k + pages@[k as int].rep_levels@);
                assert forall|d: int| 0 <= d < state.values_count@.len() implies #[trigger] state.values_count@[d]
                    + page.rep_levels@.len() <= i64::MAX by {
                    assert(state.model(stack_model(nested@)).counts[d] == state.values_count@[d] as int);
                    assert(start_model(rest).counts[d] == 0);
                }
                lemma_run_concat(
                    start_model(rest),
                    reps_k,
                    defs_upto(pages@, k as int),
                    page.rep_levels@,
                    page.def_levels@,
                    page.rep_levels@.len() as int,
                    is_nullable,
                    max_rep,
                    max_def,
                );
            }
            extend_offsets(&page.rep_levels, &page.def_levels, is_nullable, max_rep, max_def, nested, &mut state);
        }
        let mut j: usize = 0;
        let ghost values_before = values@;
        let ghost validity_before = validity@;
        assert(leaves_are_aligned(pages@[k as int]));
        while j < page.values.len()
            invariant
                j <= page.values@.len(),
                page.values@.len() == page.validity@.len(),
                values@ == values_before + page.values@.take(j as int),
                validity@ == validity_before + page.validity@.take(j as int),
            decreases page.values@.len() - j,
        {
            values.push(page.values[j]);
            validity.push(page.validity[j]);
            j = j + 1;
            assert(page.values@.take(j as int) =~= page.values@.take(j - 1).push(page.values@[j - 1]));
            assert(page.validity@.take(j as int) =~= page.validity@.take(j - 1).push(page.validity@[j - 1]));
        }
        assert(page.values@.take(j as int) =~= page.values@);
        assert(page.validity@.take(j as int) =~= page.validity@);
        k = k + 1;
    }
    if !flat {
        proof {
            assert forall|i: int| 0 <= i < pages@.len() implies (#[trigger] pages@[i]).rep_levels@.len()
                == pages@[i].def_levels@.len() by {
                assert(levels_are_valid(pages@[i].rep_levels@, pages@[i].def_levels@, max_rep, max_def));
            }
            lemma_levels_upto_len(pages@, n_pages, n_pages);
            lemma_decode_page_is_run(
                rest,
                reps_upto(pages@, n_pages),
                defs_upto(pages@, n_pages),
                is_nullable,
                max_rep,
                max_def,
            );
        }
        close_offsets(nested, &state);
    }
    let validity = if has_null(&validity) { Some(validity) } else { None };
    Ok(PrimitiveArray::from_data(primitive, values, validity))
}

/// How many leaf slots the first `k` pages hold together.
pub open spec fn total_len(pages: Seq<DecodedPage>, k: int) -> nat
    decreases k,
{
    if k <= 0 {
        0
    } else {
        total_len(pages, k - 1) + pages[k - 1].values@.len()
    }
}

/// How many null leaf slots the first `k` pages hold together.
pub open spec fn total_nulls(pages: Seq<DecodedPage>, k: int) -> nat
    decreases k,
{
    if k <= 0 {
        0
    } else {
        total_nulls(pages, k - 1) + null_count(pages[k - 1].validity@)
    }
}

proof fn lemma_null_count_append(a: Seq<bool>, b: Seq<bool>)
    ensures
        null_count(a + b) == null_count(a) + null_count(b),
    decreases b.len(),
{
    if b.len() == 0 {
        assert(a + b =~= a);
    } else {
        lemma_null_count_append(a, b.drop_last());
        assert((a + b).drop_last() =~= a + b.drop_last());
    }
}

/// Decoding pages gathers every leaf: the output has as many slots as the
/// pages have together, and as many nulls.
pub proof fn lemma_pages_counts(pages: Seq<DecodedPage>, k: int)
    requires
        0 <= k <= pages.len(),
        forall|i: int| 0 <= i < pages.len() ==> leaves_are_aligned(#[trigger] pages[i]),
    ensures
        values_upto(pages, k).len() == total_len(pages, k),
        validity_upto(pages, k).len() == total_len(pages, k),
        null_count(validity_upto(pages, k)) == total_nulls(pages, k),
    decreases k,
{
    if k > 0 {
        lemma_pages_counts(pages, k - 1);
        lemma_null_count_append(validity_upto(pages, k - 1), pages[k - 1].validity@);
    }
}

} // verus!
