//! Ordering scored guesses from the best rated to the worst.

use vstd::prelude::*;
use std::cmp::Ordering;
use itertools::Itertools;
use crate::selector::{ranks_below, ratings, Rating, ScoredGuess};

verus! {

/// `ordered` holds the entries of `rated`, each as often as `rated` does, and
/// none of its entries is rated below a later one.
pub open spec fn is_ranking(rated: Seq<Rating>, ordered: Seq<Rating>) -> bool {
    &&& ordered.to_multiset() == rated.to_multiset()
    &&& forall|i: int, j: int|
        0 <= i < j < ordered.len() ==> !ranks_below(#[trigger] ordered[i], #[trigger] ordered[j])
}

/// Compares two scored guesses by rating: `Less` where `a` is rated below
/// `b`, `Greater` where `b` is rated below `a`, `Equal` where they are rated alike.
pub fn rank_order(a: &ScoredGuess, b: &ScoredGuess) -> (order: Ordering)
    ensures
        (order is Less) == ranks_below(a@, b@),
        (order is Greater) == ranks_below(b@, a@),
{
    if a.gain < b.gain {
        Ordering::Less
    } else if a.gain > b.gain {
        Ordering::Greater
    } else if !a.possible && b.possible {
        Ordering::Less
    } else if a.possible && !b.possible {
        Ordering::Greater
    } else {
        Ordering::Equal
    }
}

/// Orders scored guesses from the best rated to the worst.
///
/// Calls `Itertools::sorted_unstable_by` of `itertools`, which sorts with the
/// unstable sort of slices, and hands it `rank_order` with its arguments
/// exchanged. Trusted: the ratings of the result are the ratings of the
/// input rearranged, and no entry of the result is rated below a later one.
/// Entries rated alike may come out in any order.
#[verifier::external_body]
pub(crate) fn sort_by_rank<'a>(scored: Vec<ScoredGuess<'a>>) -> (ordered: Vec<ScoredGuess<'a>>)
    ensures
        is_ranking(ratings(scored@), ratings(ordered@)),
{
    scored.into_iter().sorted_unstable_by(|a, b| rank_order(b, a)).collect()
}

} // verus!
