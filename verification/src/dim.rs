//! The dimension guard that every store has: the first vector fixes the
//! dimension, and every other vector must have it.

use vstd::prelude::*;

use crate::model::RecordView;

verus! {

/// The dimension after vectors of these records were seen: the first fixes it.
pub open spec fn dim_after(dim: Option<usize>, records: Seq<RecordView>) -> Option<usize> {
    match dim {
        Some(d) => Some(d),
        None => if records.len() > 0 {
            Some(records[0].embedding.len() as usize)
        } else {
            None
        },
    }
}

/// Where the first record stands whose vector has another dimension; the number
/// of records where none has.
pub open spec fn first_misfit(records: Seq<RecordView>, dim: nat) -> nat
    decreases records.len(),
{
    if records.len() == 0 || records[0].embedding.len() != dim {
        0
    } else {
        1 + first_misfit(records.drop_first(), dim)
    }
}

/// Why records are refused: the dimension that is expected, and the one that
/// the first vector with another has. None where they are not.
pub open spec fn dim_error(dim: Option<usize>, records: Seq<RecordView>) -> Option<(usize, usize)> {
    match dim_after(dim, records) {
        None => None,
        Some(expected) => {
            let at = first_misfit(records, expected as nat);
            if at < records.len() {
                Some((expected, records[at as int].embedding.len() as usize))
            } else {
                None
            }
        },
    }
}

pub proof fn lemma_first_misfit(records: Seq<RecordView>, dim: nat)
    ensures
        first_misfit(records, dim) <= records.len(),
        first_misfit(records, dim) == records.len() <==> forall|i: int|
            0 <= i < records.len() ==> (#[trigger] records[i]).embedding.len() == dim,
    decreases records.len(),
{
    if records.len() > 0 && records[0].embedding.len() == dim {
        let rest = records.drop_first();
        lemma_first_misfit(rest, dim);
        if forall|i: int| 0 <= i < rest.len() ==> (#[trigger] rest[i]).embedding.len() == dim {
            assert forall|i: int| 0 <= i < records.len() implies (
            #[trigger] records[i]).embedding.len() == dim by {
                if i > 0 {
                    assert(rest[i - 1].embedding.len() == dim);
                }
            }
        }
        if forall|i: int| 0 <= i < records.len() ==> (#[trigger] records[i]).embedding.len() == dim {
            assert forall|i: int| 0 <= i < rest.len() implies (#[trigger] rest[i]).embedding.len()
                == dim by {
                assert(records[i + 1].embedding.len() == dim);
            }
        }
    }
}

/// The dimension is fixed by the first upsert, and enforced ever after: a later
/// upsert does not change it, and is refused just where a vector has another.
pub proof fn law_dimension_is_fixed_once(
    dim: Option<usize>,
    first: Seq<RecordView>,
    later: Seq<RecordView>,
)
    requires
        first.len() > 0,
    ensures
        dim_after(dim, first) is Some,
        dim_after(dim_after(dim, first), later) == dim_after(dim, first),
        dim_error(dim_after(dim, first), later) is None <==> forall|i: int|
            0 <= i < later.len() ==> (#[trigger] later[i]).embedding.len() == dim_after(
                dim,
                first,
            )->0,
{
    lemma_first_misfit(later, dim_after(dim, first)->0 as nat);
}

/// What the guard says: the dimension that is expected is the one that is fixed,
/// or that of the first record where none is. Records are refused just where a
/// vector has another, and the refusal names the first one that does.
pub proof fn law_guard_names_the_first_misfit(
    dim: Option<usize>,
    records: Seq<RecordView>,
    expected: usize,
)
    requires
        records.len() > 0,
        expected == (match dim {
            Some(d) => d as nat,
            None => records[0].embedding.len(),
        }),
        forall|i: int|
            0 <= i < records.len() ==> (#[trigger] records[i]).embedding.len() <= usize::MAX,
    ensures
        dim_after(dim, records) == Some(expected),
        dim_error(dim, records) is None <==> forall|i: int|
            0 <= i < records.len() ==> (#[trigger] records[i]).embedding.len() == expected,
        dim_error(dim, records) matches Some((want, got)) ==> {
            &&& want == expected
            &&& got != expected
            &&& exists|i: int|
                {
                    &&& 0 <= i < records.len()
                    &&& (#[trigger] records[i]).embedding.len() == got
                    &&& forall|j: int|
                        0 <= j < i ==> (#[trigger] records[j]).embedding.len() == expected
                }
        },
{
    lemma_first_misfit(records, expected as nat);
    let at = first_misfit(records, expected as nat) as int;
    if at < records.len() {
        lemma_misfit_at(records, expected as nat);
        assert(records[at].embedding.len() <= usize::MAX);
        let (want, got) = dim_error(dim, records)->0;
        assert(records[at].embedding.len() == got);
    }
}

proof fn lemma_misfit_at(records: Seq<RecordView>, dim: nat)
    requires
        first_misfit(records, dim) < records.len(),
    ensures
        records[first_misfit(records, dim) as int].embedding.len() != dim,
        forall|j: int|
            0 <= j < first_misfit(records, dim) ==> (#[trigger] records[j]).embedding.len() == dim,
    decreases records.len(),
{
    if records[0].embedding.len() == dim {
        let rest = records.drop_first();
        lemma_misfit_at(rest, dim);
        assert forall|j: int| 0 <= j < first_misfit(records, dim) implies (
        #[trigger] records[j]).embedding.len() == dim by {
            if j > 0 {
                assert(rest[j - 1].embedding.len() == dim);
            }
        }
    }
}

/// No records, no change: they fix nothing, and are not refused.
pub proof fn law_nothing_fixes_nothing(dim: Option<usize>)
    ensures
        dim_after(dim, seq![]) == dim,
        dim_error(dim, seq![]) is None,
{
}

} // verus!
