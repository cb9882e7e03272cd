//! Sorting spans by their starts and by their ends.
use crate::order::lemma_time_order;
use crate::order::time_le;
use crate::span::{end_le, MaybeInfinite, Span};
use core::cmp::Ordering;
use vstd::laws_cmp::obeys_cmp;
use vstd::prelude::*;

verus! {

/// The starts of `s` ascend.
pub open spec fn sorted_by_start<T: Ord + Copy, Id: Copy>(s: Seq<Span<T, Id>>) -> bool {
    forall|i: int, j: int|
        0 <= i <= j < s.len() ==> time_le(#[trigger] s[i].start, #[trigger] s[j].start)
}

/// The ends of `s` ascend, an absent end coming last.
pub open spec fn sorted_by_end<T: Ord + Copy, Id: Copy>(s: Seq<Span<T, Id>>) -> bool {
    forall|i: int, j: int| 0 <= i <= j < s.len() ==> end_le(#[trigger] s[i].end, #[trigger] s[j].end)
}

/// Compares two spans by their ends, an absent end coming after every present one.
pub(crate) fn compare_ends<T: Ord + Copy, Id: Copy>(a: &Span<T, Id>, b: &Span<T, Id>) -> (r: Ordering)
    requires
        obeys_cmp::<T>(),
    ensures
        r == Ordering::Less <==> !end_le(b.end, a.end),
        r == Ordering::Greater <==> !end_le(a.end, b.end),
        r == Ordering::Equal <==> end_le(a.end, b.end) && end_le(b.end, a.end),
{
    proof {
        lemma_time_order::<T>();
    }
    let x = MaybeInfinite::from_end(a.end);
    let y = MaybeInfinite::from_end(b.end);
    if !x.le(&y) {
        Ordering::Greater
    } else if y.le(&x) {
        Ordering::Equal
    } else {
        Ordering::Less
    }
}

/// Relies on `slice::sort_by_key` with the start as the key: it permutes the spans so that
/// their starts ascend. The laws of `T`'s order rule out the panic that the sort may raise on
/// an order that is not total.
#[verifier::external_body]
pub(crate) fn sort_by_start<T: Ord + Copy, Id: Copy>(v: &mut Vec<Span<T, Id>>)
    requires
        obeys_cmp::<T>(),
    ensures
        final(v)@.to_multiset() == old(v)@.to_multiset(),
        sorted_by_start(final(v)@),
{
    v.sort_by_key(|sp| sp.start);
}

/// Relies on `slice::sort_by` with `compare_ends`, a total order under the laws of `T`'s
/// order: it permutes the spans so that their ends ascend, an absent end coming last.
#[verifier::external_body]
pub(crate) fn sort_by_end<T: Ord + Copy, Id: Copy>(v: &mut Vec<Span<T, Id>>)
    requires
        obeys_cmp::<T>(),
    ensures
        final(v)@.to_multiset() == old(v)@.to_multiset(),
        sorted_by_end(final(v)@),
{
    v.sort_by(|a, b| compare_ends(a, b));
}

} // verus!
