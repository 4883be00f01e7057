//! The arrangements of a window of positions, as `itertools` enumerates them.
use itertools::Itertools;
use itertools::Permutations;
use std::ops::Range;
use vstd::prelude::*;

verus! {

/// `positions` names `k` different positions below `n`.
pub open spec fn is_arrangement(positions: Seq<usize>, n: nat, k: nat) -> bool {
    &&& positions.len() == k
    &&& forall|i: int| 0 <= i < positions.len() ==> positions[i] < n
    &&& forall|i: int, j: int| 0 <= i < j < positions.len() ==> positions[i] != positions[j]
}

/// `listing` holds arrangements of `k` positions below `n` only, and each of them.
pub open spec fn lists_arrangements(listing: Seq<Seq<usize>>, n: nat, k: nat) -> bool {
    &&& forall|i: int| 0 <= i < listing.len() ==> is_arrangement(#[trigger] listing[i], n, k)
    &&& forall|positions: Seq<usize>| #[trigger]
        is_arrangement(positions, n, k) ==> listing.contains(positions)
}

/// `itertools::Permutations`, the enumeration that `Itertools::permutations`
/// returns. Nothing of what it holds is known but what is pending in it.
#[verifier::external_type_specification]
#[verifier::external_body]
#[verifier::reject_recursive_types(I)]
pub struct ExPermutations<I: Iterator>(Permutations<I>);

/// The arrangements that an enumeration has yet to give, in the order in
/// which it gives them.
pub uninterp spec fn pending(enumeration: Permutations<Range<usize>>) -> Seq<Seq<usize>>;

/// `Itertools::permutations` on the positions below `n`: the enumeration of
/// all arrangements of `k` of them. Nothing is claimed of their order.
#[verifier::external_body]
pub(crate) fn arrangements(n: usize, k: usize) -> (enumeration: Permutations<Range<usize>>)
    ensures
        lists_arrangements(pending(enumeration), n as nat, k as nat),
{
    (0..n).permutations(k)
}

/// `Iterator::next` of `itertools::Permutations`: gives the first of the
/// pending arrangements and leaves the others pending, or gives nothing where
/// none is pending, and nothing is pending after that either.
#[verifier::external_body]
pub(crate) fn next_arrangement(enumeration: &mut Permutations<Range<usize>>) -> (next: Option<
    Vec<usize>,
>)
    ensures
        match next {
            Some(positions) => {
                &&& pending(*old(enumeration)).len() > 0
                &&& positions@ == pending(*old(enumeration))[0]
                &&& pending(*final(enumeration)) == pending(*old(enumeration)).drop_first()
            },
            None => {
                &&& pending(*old(enumeration)).len() == 0
                &&& pending(*final(enumeration)).len() == 0
            },
        },
{
    enumeration.next()
}

} // verus!
