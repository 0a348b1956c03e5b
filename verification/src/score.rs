//! The order of scores.

use vstd::prelude::*;

use crate::float_bits;
use crate::float_bits::single_less;
use crate::sort;
use crate::value;
use crate::value::Rank;

verus! {

/// How two scores, the bits of singles, are ordered: the greater comes first. What is
/// not a number is equal to everything.
pub open spec fn score_rank(a: u32, b: u32) -> Rank {
    value::rank_by(float_bits::f32_lt(b, a), float_bits::f32_lt(a, b))
}

/// How two scores are ordered.
pub fn rank_scores(a: u32, b: u32) -> (r: Rank)
    ensures
        r == score_rank(a, b),
{
    if single_less(b, a) {
        Rank::Less
    } else if single_less(a, b) {
        Rank::Greater
    } else {
        Rank::Equal
    }
}

/// Where every score is a number, scores are totally ordered.
pub proof fn lemma_scores_total<V>(items: Seq<V>, score: spec_fn(V) -> u32, rank: spec_fn(V, V) -> Rank)
    requires
        forall|a: V, b: V| #[trigger] rank(a, b) == score_rank(score(a), score(b)),
        forall|i: int| 0 <= i < items.len() ==> !float_bits::f32_is_nan(score(#[trigger] items[i])),
    ensures
        sort::total_on(items, rank),
{
    assert forall|i: int, j: int|
        #![trigger items[i], items[j]]
        0 <= i < items.len() && 0 <= j < items.len() implies rank(items[j], items[i]) == rank(
        items[i],
        items[j],
    ).flipped() by {}
}

} // verus!
