//! Merging dense and sparse hits by reciprocal rank fusion.
//!
//! The score of an entity is the sum of `1 / (k + rank)` over its ranks, counted from
//! one. The ranks are gathered and the merged hits ordered here; the sums are floating
//! point and are made by the caller.

use vstd::prelude::*;

use crate::float_bits;
use crate::score;
use crate::score::rank_scores;
use crate::search;
use crate::search::{Hit, HitView};
use crate::sort;
use crate::sort::{stable_sort, Comparator};
use crate::value::{ids_equal, LogicalId, Rank};

verus! {

/// The constant of the fusion.
pub const DEFAULT_RRF_K: usize = 60;

/// The constant of the fusion.
pub fn default_rrf_k() -> (k: usize)
    ensures
        k == 60,
{
    DEFAULT_RRF_K
}

/// An entity with its ranks, those among the dense hits first.
#[derive(Debug)]
pub struct RankedEntity {
    pub id: LogicalId,
    pub ranks: Vec<usize>,
}

/// The ranks of an entity among hits, counted from one.
pub open spec fn ranks_in(hits: Seq<HitView>, id: Seq<char>) -> Seq<int>
    decreases hits.len(),
{
    if hits.len() == 0 {
        Seq::empty()
    } else {
        let before = ranks_in(hits.drop_last(), id);
        if hits.last().id == id {
            before.push(hits.len() as int)
        } else {
            before
        }
    }
}

/// The ranks of an entity among dense and then among sparse hits.
pub open spec fn ranks_of(dense: Seq<HitView>, sparse: Seq<HitView>, id: Seq<char>) -> Seq<int> {
    ranks_in(dense, id) + ranks_in(sparse, id)
}

/// The ids of ranked entities.
pub open spec fn ranked_ids(s: Seq<RankedEntity>) -> Seq<Seq<char>> {
    s.map_values(|r: RankedEntity| r.id@)
}

/// The ranks of a ranked entity.
pub open spec fn rank_list(r: RankedEntity) -> Seq<int> {
    r.ranks@.map_values(|n: usize| n as int)
}

/// Whether `s` holds each entity that occurs among the hits once, with its ranks.
pub open spec fn is_ranking(s: Seq<RankedEntity>, dense: Seq<HitView>, sparse: Seq<HitView>) -> bool {
    &&& ranked_ids(s).no_duplicates()
    &&& forall|i: int|
        0 <= i < s.len() ==> rank_list(#[trigger] s[i]) == ranks_of(dense, sparse, s[i].id@) && rank_list(
            s[i],
        ).len() > 0
    &&& forall|id: Seq<char>| #[trigger] ranks_of(dense, sparse, id).len() > 0 ==> ranked_ids(s).contains(id)
}

fn find_ranked(s: &Vec<RankedEntity>, id: &LogicalId) -> (r: Option<usize>)
    ensures
        match r {
            Some(i) => i < s.len() && s@[i as int].id@ == id@,
            None => !ranked_ids(s@).contains(id@),
        },
{
    let ghost ids = ranked_ids(s@);
    let mut i: usize = 0;
    while i < s.len()
        invariant
            i <= s.len(),
            ids == ranked_ids(s@),
            forall|j: int| 0 <= j < i ==> ids[j] != id@,
        decreases s.len() - i,
    {
        assert(ids[i as int] == s@[i as int].id@);
        if ids_equal(&s[i].id, id) {
            return Some(i);
        }
        i += 1;
    }
    None
}

/// Notes a rank, given how the ranks of every entity grow by it.
fn note_rank(
    s: &mut Vec<RankedEntity>,
    id: &LogicalId,
    rank: usize,
    Ghost(old_ranks): Ghost<spec_fn(Seq<char>) -> Seq<int>>,
    Ghost(new_ranks): Ghost<spec_fn(Seq<char>) -> Seq<int>>,
)
    requires
        forall|x: Seq<char>| #[trigger]
            new_ranks(x) == (if x == id@ {
                old_ranks(x).push(rank as int)
            } else {
                old_ranks(x)
            }),
        ranked_ids(old(s)@).no_duplicates(),
        forall|i: int|
            0 <= i < old(s)@.len() ==> rank_list(#[trigger] old(s)@[i]) == old_ranks(old(s)@[i].id@)
                && rank_list(old(s)@[i]).len() > 0,
        forall|x: Seq<char>| #[trigger] old_ranks(x).len() > 0 ==> ranked_ids(old(s)@).contains(x),
    ensures
        ranked_ids(final(s)@).no_duplicates(),
        forall|i: int|
            0 <= i < final(s)@.len() ==> rank_list(#[trigger] final(s)@[i]) == new_ranks(final(s)@[i].id@)
                && rank_list(final(s)@[i]).len() > 0,
        forall|x: Seq<char>| #[trigger] new_ranks(x).len() > 0 ==> ranked_ids(final(s)@).contains(x),
{
    let ghost before = s@;
    let ghost ids = ranked_ids(before);
    match find_ranked(s, id) {
        Some(at) => {
            let mut ranks: Vec<usize> = Vec::new();
            let mut i: usize = 0;
            let held = &s[at].ranks;
            while i < held.len()
                invariant
                    i <= held.len(),
                    ranks@ == held@.subrange(0, i as int),
                decreases held.len() - i,
            {
                ranks.push(held[i]);
                proof {
                    assert(held@.subrange(0, i as int + 1) =~= held@.subrange(0, i as int).push(held@[i as int]));
                }
                i += 1;
            }
            proof {
                assert(ranks@ =~= before[at as int].ranks@);
            }
            ranks.push(rank);
            let entry = RankedEntity { id: id.clone(), ranks };
            proof {
                assert(rank_list(entry) =~= rank_list(before[at as int]).push(rank as int));
            }
            s.set(at, entry);
            proof {
                assert(ranked_ids(s@) =~= ids);
                assert forall|i: int| 0 <= i < s@.len() implies rank_list(#[trigger] s@[i]) == new_ranks(
                    s@[i].id@,
                ) && rank_list(s@[i]).len() > 0 by {
                    if i != at {
                        assert(s@[i] == before[i]);
                        assert(ids[i] != ids[at as int]);
                        assert(rank_list(before[i]) == old_ranks(before[i].id@));
                    } else {
                        assert(rank_list(before[at as int]) == old_ranks(before[at as int].id@));
                    }
                }
                assert forall|x: Seq<char>| #[trigger] new_ranks(x).len() > 0 implies ranked_ids(s@).contains(x) by {
                    if x == id@ {
                        assert(ids[at as int] == x);
                    } else {
                        assert(old_ranks(x).len() > 0);
                    }
                }
            }
        },
        None => {
            let mut ranks: Vec<usize> = Vec::new();
            ranks.push(rank);
            let entry = RankedEntity { id: id.clone(), ranks };
            proof {
                assert(old_ranks(id@).len() == 0);
                assert(rank_list(entry) =~= old_ranks(id@).push(rank as int));
            }
            s.push(entry);
            proof {
                assert(ranked_ids(s@) =~= ids.push(id@));
                assert forall|i: int| 0 <= i < s@.len() implies rank_list(#[trigger] s@[i]) == new_ranks(
                    s@[i].id@,
                ) && rank_list(s@[i]).len() > 0 by {
                    if i < before.len() {
                        assert(s@[i] == before[i]);
                        assert(rank_list(before[i]) == old_ranks(before[i].id@));
                        assert(ids[i] == before[i].id@);
                    }
                }
                assert forall|x: Seq<char>| #[trigger] new_ranks(x).len() > 0 implies ranked_ids(s@).contains(x) by {
                    if x == id@ {
                        assert(ids.push(id@)[ids.len() as int] == x);
                    } else {
                        assert(old_ranks(x).len() > 0);
                        let i = choose|i: int| 0 <= i < ids.len() && ids[i] == x;
                        assert(ids.push(id@)[i] == x);
                    }
                }
            }
        },
    }
}

/// The entities that occur among dense and sparse hits, each once, with its ranks.
pub fn merge_ranks(dense: &Vec<Hit>, sparse: &Vec<Hit>) -> (r: Vec<RankedEntity>)
    ensures
        is_ranking(r@, search::hit_views(dense@), search::hit_views(sparse@)),
{
    let ghost d = search::hit_views(dense@);
    let ghost p = search::hit_views(sparse@);
    let ghost none: Seq<HitView> = Seq::empty();
    let mut r: Vec<RankedEntity> = Vec::new();
    let mut i: usize = 0;
    proof {
        assert forall|id: Seq<char>| #[trigger] ranks_of(d.subrange(0, 0), none, id).len() == 0 by {}
        assert(ranked_ids(r@).no_duplicates());
    }
    while i < dense.len()
        invariant
            i <= dense.len(),
            d == search::hit_views(dense@),
            none.len() == 0,
            is_ranking(r@, d.subrange(0, i as int), none),
        decreases dense.len() - i,
    {
        let ghost done = d.subrange(0, i as int);
        let ghost next = d.subrange(0, i as int + 1);
        proof {
            assert(next.drop_last() =~= done);
            assert(next.last() == dense@[i as int]@);
            assert forall|x: Seq<char>| #[trigger]
                ranks_of(next, none, x) == (if x == dense@[i as int].id@ {
                    ranks_of(done, none, x).push(i + 1)
                } else {
                    ranks_of(done, none, x)
                }) by {
                assert(ranks_in(none, x) =~= Seq::empty());
                assert(ranks_of(next, none, x) =~= ranks_in(next, x));
                assert(ranks_of(done, none, x) =~= ranks_in(done, x));
            }
        }
        let ghost grown = |x: Seq<char>| ranks_of(next, none, x);
        note_rank(
            &mut r,
            &dense[i].id,
            i + 1,
            Ghost(|x: Seq<char>| ranks_of(done, none, x)),
            Ghost(grown),
        );
        proof {
            assert forall|id: Seq<char>| #[trigger] ranks_of(next, none, id).len() > 0 implies ranked_ids(
                r@,
            ).contains(id) by {
                assert(grown(id).len() > 0);
            }
        }
        i += 1;
    }
    proof {
        assert(d.subrange(0, d.len() as int) =~= d);
        assert(p.subrange(0, 0) =~= none);
    }
    let mut i: usize = 0;
    while i < sparse.len()
        invariant
            i <= sparse.len(),
            p == search::hit_views(sparse@),
            is_ranking(r@, d, p.subrange(0, i as int)),
        decreases sparse.len() - i,
    {
        let ghost done = p.subrange(0, i as int);
        let ghost next = p.subrange(0, i as int + 1);
        proof {
            assert(next.drop_last() =~= done);
            assert(next.last() == sparse@[i as int]@);
            assert forall|x: Seq<char>| #[trigger]
                ranks_of(d, next, x) == (if x == sparse@[i as int].id@ {
                    ranks_of(d, done, x).push(i + 1)
                } else {
                    ranks_of(d, done, x)
                }) by {
                if x == sparse@[i as int].id@ {
                    assert(ranks_in(d, x) + ranks_in(done, x).push(i + 1) =~= ranks_of(d, done, x).push(i + 1));
                }
            }
        }
        let ghost grown = |x: Seq<char>| ranks_of(d, next, x);
        note_rank(
            &mut r,
            &sparse[i].id,
            i + 1,
            Ghost(|x: Seq<char>| ranks_of(d, done, x)),
            Ghost(grown),
        );
        proof {
            assert forall|id: Seq<char>| #[trigger] ranks_of(d, next, id).len() > 0 implies ranked_ids(
                r@,
            ).contains(id) by {
                assert(grown(id).len() > 0);
            }
        }
        i += 1;
    }
    assert(p.subrange(0, p.len() as int) =~= p);
    r
}

struct HitOrder;

impl Comparator<Hit> for HitOrder {
    closed spec fn rank(&self, a: Hit, b: Hit) -> Rank {
        score::score_rank(a.score, b.score)
    }

    fn compare(&self, a: &Hit, b: &Hit) -> (r: Rank) {
        rank_scores(a.score, b.score)
    }
}

/// The order of hits: the greater score first.
pub open spec fn hit_order() -> spec_fn(HitView, HitView) -> Rank {
    |a: HitView, b: HitView| score::score_rank(a.score, b.score)
}

/// Orders hits, the greater score first. Hits of one score keep their order.
pub fn sort_hits(hits: &mut Vec<Hit>)
    ensures
        sort::stably_sorted(search::hit_views(old(hits)@), search::hit_views(final(hits)@), hit_order()),
{
    let ghost before = hits@;
    stable_sort(hits, &HitOrder);
    proof {
        let f = |a: Hit, b: Hit| HitOrder.rank(a, b);
        let view = |h: Hit| h@;
        assert forall|a: Hit, b: Hit| #[trigger] f(a, b) == hit_order()(view(a), view(b)) by {}
        sort::lemma_sorted_views(before, hits@, f, view, hit_order());
    }
}

/// Where every score is a number, hits come out in falling order of their scores.
pub proof fn lemma_hits_fall(before: Seq<HitView>, after: Seq<HitView>)
    requires
        sort::stably_sorted(before, after, hit_order()),
        forall|i: int| 0 <= i < before.len() ==> !float_bits::f32_is_nan((#[trigger] before[i]).score),
    ensures
        forall|i: int, j: int|
            0 <= i < j < after.len() ==> !float_bits::f32_lt((#[trigger] after[i]).score, (#[trigger] after[j]).score),
        before.to_multiset() == after.to_multiset(),
{
    score::lemma_scores_total(before, |h: HitView| h.score, hit_order());
    let p = choose|p: Seq<int>| #[trigger] sort::arrangement(before, after, p) && sort::in_order(
        after,
        p,
        hit_order(),
    );
    sort::lemma_arrangement_multiset(before, after, p);
}

} // verus!
