//! Sorting keys: triples of integers, ordered the way tuples are.

use vstd::prelude::*;

verus! {

/// Tuple order on triples: by the first, then the second, then the third.
pub open spec fn triple_le(a: (u64, u64, u64), b: (u64, u64, u64)) -> bool {
    a.0 < b.0 || (a.0 == b.0 && (a.1 < b.1 || (a.1 == b.1 && a.2 <= b.2)))
}

/// Ascending in tuple order.
pub open spec fn triples_sorted(s: Seq<(u64, u64, u64)>) -> bool {
    forall|i: int, j: int| 0 <= i < j < s.len() ==> triple_le(#[trigger] s[i], #[trigger] s[j])
}

/// `<[T]>::sort` on triples of integers: the same elements, ascending in the
/// order std documents for tuples (lexicographic).
#[verifier::external_body]
pub(crate) fn sort_triples(v: &mut Vec<(u64, u64, u64)>)
    ensures
        final(v)@.to_multiset() == old(v)@.to_multiset(),
        triples_sorted(final(v)@),
{
    v.sort();
}

} // verus!
