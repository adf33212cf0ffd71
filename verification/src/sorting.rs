//! Sorting, as `itertools` does it. Nothing in this file is proved.
use vstd::prelude::*;
use itertools::Itertools;

verus! {

/// Whether the pair `a` comes before the pair `b` or is `b`: by the first
/// number, and by the second where the first are equal.
pub open spec fn pair_le(a: (usize, usize), b: (usize, usize)) -> bool {
    a.0 < b.0 || (a.0 == b.0 && a.1 <= b.1)
}

/// `Itertools::sorted` over the pairs of a vector: the same pairs, each as
/// often as before, in ascending order. Pairs of numbers are ordered by the
/// first number and then by the second.
#[verifier::external_body]
pub(crate) fn sorted_pairs(pairs: Vec<(usize, usize)>) -> (sorted: Vec<(usize, usize)>)
    ensures
        sorted@.to_multiset() == pairs@.to_multiset(),
        forall|i: int, j: int|
            0 <= i <= j < sorted@.len() ==> pair_le(#[trigger] sorted@[i], #[trigger] sorted@[j]),
{
    pairs.into_iter().sorted().collect()
}

} // verus!
