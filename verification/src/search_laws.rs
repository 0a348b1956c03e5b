//! What the rows of a query hold, and what a SEARCH answers.

use vstd::prelude::*;
use vstd::string::*;

use crate::error::EngineError;
use crate::float_bits;
use crate::hybrid;
use crate::hybrid::RankedEntity;
use crate::location::LocState;
use crate::rows;
use crate::rows::{FieldList, RowView};
use crate::search;
use crate::search::{Candidate, HitView, SearchAction, SearchPlan, SearchStrategy};
use crate::selection;
use crate::text;
use crate::types::{CollectionSchema, Entity, StoredRepresentation};
use crate::value::Val;

verus! {

/// Whether the fields of a row are those of an entity that were asked for: its id and
/// each stored field, or its id and each field named, which is null where it is not
/// stored.
pub open spec fn shows(values: Map<Seq<char>, Val>, id: Seq<char>, m: Map<Seq<char>, Val>, fields: FieldList) -> bool {
    match fields {
        FieldList::All => {
            &&& values.contains_key("id"@)
            &&& !m.contains_key("id"@) ==> values["id"@] == Val::Str(id)
            &&& forall|k: Seq<char>| #[trigger] m.contains_key(k) ==> values.contains_key(k) && values[k] == m[k]
            &&& forall|k: Seq<char>| #[trigger] values.contains_key(k) ==> k == "id"@ || m.contains_key(k)
        },
        FieldList::Named(names) => {
            &&& values.contains_key("id"@)
            &&& values["id"@] == Val::Str(id)
            &&& forall|i: int|
                0 <= i < names@.len() && (#[trigger] names@[i])@ != "id"@ ==> values.contains_key(names@[i]@)
                    && values[names@[i]@] == (if m.contains_key(names@[i]@) {
                    m[names@[i]@]
                } else {
                    Val::Null
                })
            &&& forall|k: Seq<char>| #[trigger]
                values.contains_key(k) ==> k == "id"@ || exists|i: int|
                    0 <= i < names@.len() && (#[trigger] names@[i])@ == k
        },
    }
}

/// A row of an entity holds the fields asked for, and no other.
pub proof fn lemma_row_shows_entity(id: Seq<char>, m: Map<Seq<char>, Val>, fields: FieldList)
    ensures
        shows(rows::projected(id, m, fields), id, m, fields),
{
    if let FieldList::Named(names) = fields {
        let values = rows::projected(id, m, fields);
        let ns = text::views(names@);
        assert forall|i: int| 0 <= i < names@.len() && (#[trigger] names@[i])@ != "id"@ implies values.contains_key(
            names@[i]@,
        ) by {
            assert(ns[i] == names@[i]@);
        }
        assert forall|k: Seq<char>| #[trigger] values.contains_key(k) && k != "id"@ implies exists|i: int|
            0 <= i < names@.len() && (#[trigger] names@[i])@ == k by {
            let i = choose|i: int| 0 <= i < ns.len() && ns[i] == k;
            assert(names@[i]@ == k);
        }
    }
}

/// The rows of a SEARCH are those of the hits whose entities are stored, each once and in
/// the order of the hits, with the score of the hit.
pub proof fn lemma_search_rows_in_order(hits: Seq<HitView>, found: Seq<Option<Entity>>, fields: FieldList)
    requires
        hits.len() == found.len(),
    ensures
        selection::is_selection(
            hits.zip_with(found),
            search::hit_rows(hits, found, fields),
            |x: (HitView, Option<Entity>)| x.1 is Some,
            |x: (HitView, Option<Entity>)|
                RowView { values: rows::projected(x.1->0.id@, x.1->0.metadata@, fields), score: Some(x.0.score) },
        ),
    decreases hits.len(),
{
    let keep = |x: (HitView, Option<Entity>)| x.1 is Some;
    let make = |x: (HitView, Option<Entity>)|
        RowView { values: rows::projected(x.1->0.id@, x.1->0.metadata@, fields), score: Some(x.0.score) };
    let all = hits.zip_with(found);
    let after = search::hit_rows(hits, found, fields);
    if hits.len() == 0 {
        selection::lemma_selection_empty(all, after, keep, make);
    } else {
        lemma_search_rows_in_order(hits.drop_last(), found.drop_last(), fields);
        let before = search::hit_rows(hits.drop_last(), found.drop_last(), fields);
        assert(all.drop_last() =~= hits.drop_last().zip_with(found.drop_last()));
        selection::lemma_selection_grows(all, before, after, keep, make);
    }
}

/// Where every hit's entity is stored, a SEARCH answers one row for each hit: row `i`
/// carries the score of hit `i` and the fields of its entity. So where the scores of the
/// hits do not rise, those of the rows do not.
pub proof fn lemma_search_rows_follow_hits(hits: Seq<HitView>, found: Seq<Option<Entity>>, fields: FieldList)
    requires
        hits.len() == found.len(),
        forall|i: int| 0 <= i < found.len() ==> (#[trigger] found[i]) is Some,
    ensures
        search::hit_rows(hits, found, fields).len() == hits.len(),
        forall|i: int|
            0 <= i < hits.len() ==> (#[trigger] search::hit_rows(hits, found, fields)[i]).score == Some(hits[i].score)
                && shows(
                search::hit_rows(hits, found, fields)[i].values,
                found[i]->0.id@,
                found[i]->0.metadata@,
                fields,
            ),
        (forall|i: int, j: int|
            0 <= i < j < hits.len() ==> !float_bits::f32_lt((#[trigger] hits[i]).score, (#[trigger] hits[j]).score))
            ==> forall|i: int, j: int|
            0 <= i < j < hits.len() ==> !float_bits::f32_lt(
                (#[trigger] search::hit_rows(hits, found, fields)[i]).score->0,
                (#[trigger] search::hit_rows(hits, found, fields)[j]).score->0,
            ),
{
    let keep = |x: (HitView, Option<Entity>)| x.1 is Some;
    let make = |x: (HitView, Option<Entity>)|
        RowView { values: rows::projected(x.1->0.id@, x.1->0.metadata@, fields), score: Some(x.0.score) };
    let all = hits.zip_with(found);
    let rs = search::hit_rows(hits, found, fields);
    lemma_search_rows_in_order(hits, found, fields);
    assert forall|k: int| 0 <= k < all.len() implies keep(#[trigger] all[k]) by {
        assert(found[k] is Some);
    }
    selection::lemma_selection_all(all, rs, keep, make);
    assert forall|i: int| 0 <= i < hits.len() implies (#[trigger] rs[i]).score == Some(hits[i].score) && shows(
        rs[i].values,
        found[i]->0.id@,
        found[i]->0.metadata@,
        fields,
    ) by {
        assert(rs[i] == make(all[i]));
        lemma_row_shows_entity(found[i]->0.id@, found[i]->0.metadata@, fields);
    }
}

/// The hits that may be answered are exactly those whose representation is neither dirty nor
/// being recomputed and whose entity a pre-filter lets through, if there is one, in the
/// order of the candidates.
pub proof fn lemma_answerable_in_order(cs: Seq<Candidate>, allowed: Option<Seq<Seq<char>>>)
    ensures
        selection::is_selection(
            cs,
            search::answerable_hits(cs, allowed),
            |c: Candidate|
                c.state != Some(LocState::Dirty) && c.state != Some(LocState::Recomputing) && (
                allowed matches Some(ids) ==> ids.contains(c.hit.id@)),
            |c: Candidate| HitView { id: c.hit.id@, score: c.hit.score },
        ),
    decreases cs.len(),
{
    let keep = |c: Candidate|
        c.state != Some(LocState::Dirty) && c.state != Some(LocState::Recomputing) && (
        allowed matches Some(ids) ==> ids.contains(c.hit.id@));
    let make = |c: Candidate| HitView { id: c.hit.id@, score: c.hit.score };
    let after = search::answerable_hits(cs, allowed);
    if cs.len() == 0 {
        selection::lemma_selection_empty(cs, after, keep, make);
    } else {
        lemma_answerable_in_order(cs.drop_last(), allowed);
        selection::lemma_selection_grows(cs, search::answerable_hits(cs.drop_last(), allowed), after, keep, make);
    }
}

/// A score reaches a threshold that is positive where it is a number, as a double, and not
/// below it; and any other threshold always.
pub proof fn lemma_reaches(score: u32, threshold: u64)
    ensures
        !float_bits::f64_is_nan(threshold) && float_bits::f64_key(threshold) > 0 ==> (search::reaches(score, threshold)
            <==> !float_bits::f64_is_nan(float_bits::f32_to_f64(score)) && float_bits::f64_key(threshold)
            <= float_bits::f64_key(float_bits::f32_to_f64(score))),
        float_bits::f64_is_nan(threshold) || float_bits::f64_key(threshold) <= 0 ==> search::reaches(score, threshold),
{
}

/// A SEARCH goes on with exactly those hits of a vector index whose scores reach its
/// threshold, in order; after a two-pass search with those among the first that it answers.
pub proof fn lemma_dense_in_order(hits: Seq<HitView>, p: SearchPlan)
    ensures
        selection::is_selection(
            if p.two_pass is Some && p.k <= hits.len() {
                hits.take(p.k as int)
            } else {
                hits
            },
            search::dense_hits(hits, p),
            |h: HitView| search::reaches(h.score, p.confidence_threshold),
            |h: HitView| h,
        ),
{
    let kept = if p.two_pass is Some && p.k <= hits.len() {
        hits.take(p.k as int)
    } else {
        hits
    };
    assert(kept =~= (if p.two_pass is Some {
        rows::limited(hits, Some(p.k))
    } else {
        hits
    }));
    lemma_reaching_in_order(kept, p.confidence_threshold);
}

proof fn lemma_reaching_in_order(hits: Seq<HitView>, threshold: u64)
    ensures
        selection::is_selection(
            hits,
            search::reaching(hits, threshold),
            |h: HitView| search::reaches(h.score, threshold),
            |h: HitView| h,
        ),
    decreases hits.len(),
{
    let keep = |h: HitView| search::reaches(h.score, threshold);
    let make = |h: HitView| h;
    let after = search::reaching(hits, threshold);
    if hits.len() == 0 {
        selection::lemma_selection_empty(hits, after, keep, make);
    } else {
        lemma_reaching_in_order(hits.drop_last(), threshold);
        selection::lemma_selection_grows(hits, search::reaching(hits.drop_last(), threshold), after, keep, make);
    }
}

/// Whether the key at a place is the first that belongs to a collection.
pub open spec fn first_of_collection(keys: Seq<Seq<char>>, collection: Seq<char>, i: int) -> bool {
    &&& 0 <= i < keys.len()
    &&& text::has_prefix(keys[i], collection + ":"@)
    &&& forall|j: int| 0 <= j < i ==> !text::has_prefix(#[trigger] keys[j], collection + ":"@)
}

/// Whether no key belongs to a collection.
pub open spec fn none_of_collection(keys: Seq<Seq<char>>, collection: Seq<char>) -> bool {
    forall|j: int| 0 <= j < keys.len() ==> !text::has_prefix(#[trigger] keys[j], collection + ":"@)
}

proof fn lemma_first_scoped(keys: Seq<Seq<char>>, collection: Seq<char>)
    ensures
        match search::first_scoped(keys, search::scope(collection)) {
            Some(i) => first_of_collection(keys, collection, i),
            None => none_of_collection(keys, collection),
        },
    decreases keys.len(),
{
    if keys.len() > 0 {
        let head = keys.drop_last();
        lemma_first_scoped(head, collection);
        assert forall|j: int| 0 <= j < head.len() implies head[j] == #[trigger] keys[j] by {}
        assert(keys[keys.len() - 1] == keys.last());
        match search::first_scoped(head, search::scope(collection)) {
            Some(i) => {
                assert forall|j: int| 0 <= j < i implies !text::has_prefix(#[trigger] keys[j], collection + ":"@) by {
                    assert(head[j] == keys[j]);
                }
            },
            None => {
                assert forall|j: int| 0 <= j < head.len() implies !text::has_prefix(
                    #[trigger] keys[j],
                    collection + ":"@,
                ) by {
                    assert(head[j] == keys[j]);
                }
            },
        }
    }
}

/// How many hits a SEARCH asks an index for: as many as it answers, or four times as many
/// where a pre-filter will drop some.
pub open spec fn asked(p: SearchPlan) -> int {
    p.k * (if p.pre_filter is Some {
        4int
    } else {
        1int
    })
}

/// A SEARCH asks an index of its own collection, the first of the kind that its strategy
/// needs. It is refused exactly where the vector or text that the strategy needs is not
/// given, or where there is no such index; a text query also where the collection is not
/// known or has nothing to encode it for.
pub proof fn lemma_search_asks(
    p: SearchPlan,
    schema: Option<CollectionSchema>,
    dense: Seq<Seq<char>>,
    sparse: Seq<Seq<char>>,
    r: Result<SearchAction, EngineError>,
)
    requires
        search::action_of(p, schema, dense, sparse, r),
    ensures
        match r {
            Ok(SearchAction::Dense { key, k }) => {
                &&& p.strategy == SearchStrategy::Hnsw
                &&& p.dense_vector is Some
                &&& exists|i: int| #[trigger] first_of_collection(dense, p.collection@, i) && key@ == dense[i]
                &&& p.two_pass matches Some(t) ==> k == t.first_pass_k
                &&& p.two_pass is None ==> k == asked(p)
            },
            Ok(SearchAction::Sparse { key, k }) => {
                &&& p.strategy == SearchStrategy::Sparse
                &&& p.sparse_vector is Some
                &&& exists|i: int| #[trigger] first_of_collection(sparse, p.collection@, i) && key@ == sparse[i]
                &&& k == asked(p)
            },
            Ok(SearchAction::Hybrid { dense_key, sparse_key, k }) => {
                &&& p.strategy == SearchStrategy::Hybrid
                &&& p.dense_vector is Some
                &&& p.sparse_vector is Some
                &&& exists|i: int| #[trigger] first_of_collection(dense, p.collection@, i) && dense_key@ == dense[i]
                &&& exists|i: int| #[trigger] first_of_collection(sparse, p.collection@, i) && sparse_key@ == sparse[i]
                &&& k == asked(p)
            },
            Ok(SearchAction::Encode { repr, k }) => {
                &&& p.strategy == SearchStrategy::NaturalLanguage
                &&& p.query_text is Some
                &&& schema is Some
                &&& p.using_repr matches Some(n) ==> repr@ == n@
                &&& p.using_repr is None ==> exists|i: int| #[trigger]
                    first_managed(schema->0.representations@, i) && repr@ == schema->0.representations@[i].name@
                &&& p.two_pass matches Some(t) ==> k == t.first_pass_k
                &&& p.two_pass is None ==> k == asked(p)
            },
            Err(_) => match p.strategy {
                SearchStrategy::Hnsw => p.dense_vector is None || none_of_collection(dense, p.collection@),
                SearchStrategy::Sparse => p.sparse_vector is None || none_of_collection(sparse, p.collection@),
                SearchStrategy::Hybrid => p.dense_vector is None || p.sparse_vector is None || none_of_collection(
                    dense,
                    p.collection@,
                ) || none_of_collection(sparse, p.collection@),
                SearchStrategy::NaturalLanguage => p.query_text is None || schema is None || (p.using_repr is None
                    && forall|i: int| !#[trigger] first_managed(schema->0.representations@, i)),
            },
        },
        r is Ok && p.strategy == SearchStrategy::Hnsw ==> r->Ok_0 is Dense,
        r is Ok && p.strategy == SearchStrategy::Sparse ==> r->Ok_0 is Sparse,
        r is Ok && p.strategy == SearchStrategy::Hybrid ==> r->Ok_0 is Hybrid,
        r is Ok && p.strategy == SearchStrategy::NaturalLanguage ==> r->Ok_0 is Encode,
{
    lemma_first_scoped(dense, p.collection@);
    lemma_first_scoped(sparse, p.collection@);
    if let Some(sc) = schema {
        lemma_managed(sc.representations@);
    }
}

/// Whether the representation at a place is the first that is computed from fields and is
/// not sparse.
pub open spec fn first_managed(reprs: Seq<StoredRepresentation>, i: int) -> bool {
    &&& 0 <= i < reprs.len()
    &&& reprs[i].fields@.len() > 0
    &&& !reprs[i].sparse
    &&& forall|j: int| 0 <= j < i ==> (#[trigger] reprs[j]).fields@.len() == 0 || reprs[j].sparse
}

proof fn lemma_managed(reprs: Seq<StoredRepresentation>)
    ensures
        match search::managed_dense(reprs) {
            Some(n) => exists|i: int| #[trigger] first_managed(reprs, i) && reprs[i].name@ == n,
            None => forall|j: int| 0 <= j < reprs.len() ==> (#[trigger] reprs[j]).fields@.len() == 0 || reprs[j].sparse,
        },
    decreases reprs.len(),
{
    if reprs.len() > 0 {
        let head = reprs.drop_last();
        let n = head.len() as int;
        lemma_managed(head);
        assert(reprs[n] == reprs.last());
        assert forall|j: int| 0 <= j < head.len() implies head[j] == #[trigger] reprs[j] by {}
        match search::managed_dense(head) {
            Some(name) => {
                let i = choose|i: int| #[trigger] first_managed(head, i) && head[i].name@ == name;
                assert forall|j: int| 0 <= j < i implies (#[trigger] reprs[j]).fields@.len() == 0 || reprs[j].sparse by {
                    assert(head[j] == reprs[j]);
                }
                assert(first_managed(reprs, i));
            },
            None => {
                assert forall|j: int| 0 <= j < n implies (#[trigger] reprs[j]).fields@.len() == 0 || reprs[j].sparse by {
                    assert(head[j] == reprs[j]);
                }
                if reprs[n].fields@.len() > 0 && !reprs[n].sparse {
                    assert(first_managed(reprs, n));
                }
            },
        }
    }
}

/// The representation whose staleness excludes hits is the one that the searched index
/// belongs to: the key of the first index of the collection, of the kind that the strategy
/// searches, is made of the collection and the name of that representation.
pub proof fn lemma_searched_index(
    p: SearchPlan,
    schema: CollectionSchema,
    dense: Seq<Seq<char>>,
    sparse: Seq<Seq<char>>,
    keys: Seq<Seq<char>>,
)
    requires
        p.strategy == SearchStrategy::Sparse ==> keys == sparse,
        p.strategy != SearchStrategy::Sparse ==> keys == dense,
    ensures
        match search::searched_index(p, schema, dense, sparse) {
            Some(i) => 0 <= i < schema.representations@.len() && exists|k: int| #[trigger]
                first_of_collection(keys, p.collection@, k) && keys[k] == p.collection@ + ":"@
                    + schema.representations@[i].name@,
            None => forall|k: int| #[trigger]
                first_of_collection(keys, p.collection@, k) ==> unnamed(
                    schema.representations@,
                    p.collection@,
                    keys[k],
                ),
        },
{
    lemma_first_scoped(keys, p.collection@);
    match search::first_scoped(keys, search::scope(p.collection@)) {
        Some(k) => {
            lemma_repr_named(schema.representations@, p.collection@, keys[k]);
            assert forall|j: int| #[trigger] first_of_collection(keys, p.collection@, j) implies j == k by {
                if j < k {
                    assert(!text::has_prefix(keys[j], p.collection@ + ":"@));
                } else if k < j {
                    assert(!text::has_prefix(keys[k], p.collection@ + ":"@));
                }
            }
        },
        None => {
            assert forall|k: int| !#[trigger] first_of_collection(keys, p.collection@, k) by {
                if 0 <= k < keys.len() {
                    assert(!text::has_prefix(keys[k], p.collection@ + ":"@));
                }
            }
        },
    }
}

/// Whether a key is that of no representation of a collection.
pub open spec fn unnamed(reprs: Seq<StoredRepresentation>, collection: Seq<char>, key: Seq<char>) -> bool {
    forall|i: int| 0 <= i < reprs.len() ==> key != collection + ":"@ + (#[trigger] reprs[i]).name@
}

proof fn lemma_repr_named(reprs: Seq<StoredRepresentation>, collection: Seq<char>, key: Seq<char>)
    ensures
        match search::repr_named(reprs, collection, key) {
            Some(i) => 0 <= i < reprs.len() && key == collection + ":"@ + reprs[i].name@,
            None => unnamed(reprs, collection, key),
        },
    decreases reprs.len(),
{
    if reprs.len() > 0 {
        let head = reprs.drop_last();
        lemma_repr_named(head, collection, key);
        assert(reprs[reprs.len() - 1] == reprs.last());
        assert forall|i: int| 0 <= i < head.len() implies head[i] == #[trigger] reprs[i] by {}
    }
}

/// The ranks of an entity among hits are the places, counted from one and in increasing
/// order, at which it stands.
pub proof fn lemma_ranks_are_places(hits: Seq<HitView>, id: Seq<char>)
    ensures
        forall|i: int|
            0 <= i < hybrid::ranks_in(hits, id).len() ==> 1 <= #[trigger] hybrid::ranks_in(hits, id)[i] <= hits.len()
                && hits[hybrid::ranks_in(hits, id)[i] - 1].id == id,
        forall|i: int, j: int|
            0 <= i < j < hybrid::ranks_in(hits, id).len() ==> #[trigger] hybrid::ranks_in(hits, id)[i]
                < #[trigger] hybrid::ranks_in(hits, id)[j],
        forall|k: int|
            0 <= k < hits.len() && (#[trigger] hits[k]).id == id ==> hybrid::ranks_in(hits, id).contains(k + 1),
    decreases hits.len(),
{
    if hits.len() > 0 {
        let head = hits.drop_last();
        let n = hits.len() as int;
        let before = hybrid::ranks_in(head, id);
        let after = hybrid::ranks_in(hits, id);
        lemma_ranks_are_places(head, id);
        assert(hits[n - 1] == hits.last());
        assert forall|i: int| 0 <= i < after.len() implies 1 <= #[trigger] after[i] <= n && hits[after[i] - 1].id
            == id by {
            if i < before.len() {
                assert(after[i] == before[i]);
                assert(head[before[i] - 1] == hits[before[i] - 1]);
            }
        }
        assert forall|i: int, j: int| 0 <= i < j < after.len() implies #[trigger] after[i] < #[trigger] after[j] by {
            assert(after[i] == before[i]);
            if j < before.len() {
                assert(after[j] == before[j]);
            }
        }
        assert forall|k: int| 0 <= k < n && (#[trigger] hits[k]).id == id implies after.contains(k + 1) by {
            if k < n - 1 {
                assert(head[k] == hits[k]);
                assert(before.contains(k + 1));
                let i = choose|i: int| 0 <= i < before.len() && before[i] == k + 1;
                assert(after[i] == k + 1);
            } else {
                assert(after[before.len() as int] == n);
            }
        }
    }
}

/// Merging ranks keeps every entity that occurs among the dense or the sparse hits, once,
/// and no other; its ranks are its places among the dense hits followed by those among the
/// sparse ones.
pub proof fn lemma_merge_ranks(s: Seq<RankedEntity>, dense: Seq<HitView>, sparse: Seq<HitView>)
    requires
        hybrid::is_ranking(s, dense, sparse),
    ensures
        forall|i: int, j: int| 0 <= i < j < s.len() ==> (#[trigger] s[i]).id@ != (#[trigger] s[j]).id@,
        forall|k: int| 0 <= k < dense.len() ==> hybrid::ranked_ids(s).contains((#[trigger] dense[k]).id),
        forall|k: int| 0 <= k < sparse.len() ==> hybrid::ranked_ids(s).contains((#[trigger] sparse[k]).id),
        forall|i: int|
            0 <= i < s.len() ==> hybrid::rank_list(#[trigger] s[i]) == hybrid::ranks_in(dense, s[i].id@)
                + hybrid::ranks_in(sparse, s[i].id@) && s[i].ranks@.len() > 0,
{
    let ids = hybrid::ranked_ids(s);
    assert forall|i: int, j: int| 0 <= i < j < s.len() implies (#[trigger] s[i]).id@ != (#[trigger] s[j]).id@ by {
        assert(ids[i] != ids[j]);
    }
    assert forall|k: int| 0 <= k < dense.len() implies ids.contains((#[trigger] dense[k]).id) by {
        lemma_ranks_are_places(dense, dense[k].id);
        assert(hybrid::ranks_in(dense, dense[k].id).contains(k + 1));
        assert(hybrid::ranks_of(dense, sparse, dense[k].id).len() > 0);
    }
    assert forall|k: int| 0 <= k < sparse.len() implies ids.contains((#[trigger] sparse[k]).id) by {
        lemma_ranks_are_places(sparse, sparse[k].id);
        assert(hybrid::ranks_in(sparse, sparse[k].id).contains(k + 1));
        assert(hybrid::ranks_of(dense, sparse, sparse[k].id).len() > 0);
    }
}

} // verus!
