//! What an INFER EDGES proposes.

use vstd::prelude::*;
use vstd::string::*;

use crate::edge;
use crate::edge::{AdjView, EdgeType, EntryView};
use crate::float_bits;
use crate::infer;
use crate::infer::{InferPlan, ProposalView};
use crate::inference::{InferenceAuditEntry, InferenceTrigger};
use crate::result::QueryResult;
use crate::rows;
use crate::score;
use crate::search;
use crate::search::{Hit, HitView};
use crate::selection;
use crate::sort;
use crate::text;
use crate::types::Representation;
use crate::value::Val;

verus! {

/// Whether no edge among some leads to a node.
pub open spec fn none_leads_to(es: Seq<EntryView>, to: Seq<char>) -> bool {
    forall|i: int| 0 <= i < es.len() ==> (#[trigger] es[i]).to_id != to
}

/// Whether a hit for an edge type qualifies as a proposal: it is not the source, no edge of
/// the type from the source leads to it already, and its score is not below the floor.
pub open spec fn qualifies(h: HitView, v: AdjView, source: Seq<char>, edge_type: Seq<char>, floor: u32) -> bool {
    &&& h.id != source
    &&& none_leads_to(edge::list_at(v.forward, (source, edge_type)), h.id)
    &&& !float_bits::f32_lt(h.score, floor)
}

/// Whether a proposal is a qualifying hit for one of the edge types.
pub open spec fn is_qualified(
    v: AdjView,
    source: Seq<char>,
    types: Seq<EdgeType>,
    hits: Seq<Option<Vec<Hit>>>,
    floor: u32,
    p: ProposalView,
) -> bool {
    exists|k: int, j: int|
        #![trigger types[k], search::hit_views(hits[k]->0@)[j]]
        0 <= k < types.len() && hits[k] is Some && 0 <= j < hits[k]->0@.len() && qualifies(
            search::hit_views(hits[k]->0@)[j],
            v,
            source,
            types[k].name@,
            floor,
        ) && p.edge_type == types[k].name@ && p.to_id == hits[k]->0@[j].id@ && p.score == hits[k]->0@[j].score
}

/// The hits for an edge type that may become edges are exactly those that are not the
/// source and that no edge of the type leads to, each with its score, in order.
pub proof fn lemma_type_proposals(hits: Seq<HitView>, source: Seq<char>, edge_type: Seq<char>, es: Seq<EntryView>)
    ensures
        selection::is_selection(
            hits,
            infer::evaluated(hits, source, edge_type, es),
            |h: HitView| h.id != source && none_leads_to(es, h.id),
            |h: HitView| ProposalView { edge_type, to_id: h.id, score: h.score },
        ),
    decreases hits.len(),
{
    let keep = |h: HitView| h.id != source && none_leads_to(es, h.id);
    let make = |h: HitView| ProposalView { edge_type, to_id: h.id, score: h.score };
    let after = infer::evaluated(hits, source, edge_type, es);
    if hits.len() == 0 {
        selection::lemma_selection_empty(hits, after, keep, make);
    } else {
        let before = infer::evaluated(hits.drop_last(), source, edge_type, es);
        lemma_type_proposals(hits.drop_last(), source, edge_type, es);
        assert(infer::leads_to(es, hits.last().id) <==> !none_leads_to(es, hits.last().id));
        selection::lemma_selection_grows(hits, before, after, keep, make);
    }
}

/// The proposals kept are exactly those whose score is not below the floor, in order.
pub proof fn lemma_floor_keeps(ps: Seq<ProposalView>, floor: u32)
    ensures
        selection::is_selection(
            ps,
            infer::not_below(ps, floor),
            |p: ProposalView| !float_bits::f32_lt(p.score, floor),
            |p: ProposalView| p,
        ),
    decreases ps.len(),
{
    let keep = |p: ProposalView| !float_bits::f32_lt(p.score, floor);
    let make = |p: ProposalView| p;
    let after = infer::not_below(ps, floor);
    if ps.len() == 0 {
        selection::lemma_selection_empty(ps, after, keep, make);
    } else {
        lemma_floor_keeps(ps.drop_last(), floor);
        selection::lemma_selection_grows(ps, infer::not_below(ps.drop_last(), floor), after, keep, make);
    }
}

/// The hits for each edge type follow those for the types before it: those of the first
/// types come first, and those of a type without an index are none.
pub proof fn lemma_types_follow(v: AdjView, source: Seq<char>, types: Seq<EdgeType>, hits: Seq<Option<Vec<Hit>>>, k: int)
    requires
        0 <= k < types.len(),
    ensures
        infer::all_evaluated(v, source, types.take(k), hits).is_prefix_of(infer::all_evaluated(v, source, types, hits)),
        hits[k] is Some ==> infer::all_evaluated(v, source, types.take(k + 1), hits) == infer::all_evaluated(
            v,
            source,
            types.take(k),
            hits,
        ) + infer::evaluated(
            search::hit_views(hits[k]->0@),
            source,
            types[k].name@,
            edge::list_at(v.forward, (source, types[k].name@)),
        ),
        hits[k] is None ==> infer::all_evaluated(v, source, types.take(k + 1), hits) == infer::all_evaluated(
            v,
            source,
            types.take(k),
            hits,
        ),
    decreases types.len(),
{
    let next = types.take(k + 1);
    assert(next.drop_last() =~= types.take(k));
    assert(next.last() == types[k]);
    if k + 1 == types.len() {
        assert(next =~= types);
    } else {
        let head = types.drop_last();
        assert(head.take(k) =~= types.take(k));
        assert(head.take(k + 1) =~= next);
        lemma_types_follow(v, source, head, hits, k);
    }
}

proof fn lemma_evaluated_contains(
    v: AdjView,
    source: Seq<char>,
    types: Seq<EdgeType>,
    hits: Seq<Option<Vec<Hit>>>,
    k: int,
    j: int,
)
    requires
        0 <= k < types.len(),
        hits[k] is Some,
        0 <= j < hits[k]->0@.len(),
        hits[k]->0@[j].id@ != source,
        none_leads_to(edge::list_at(v.forward, (source, types[k].name@)), hits[k]->0@[j].id@),
    ensures
        infer::all_evaluated(v, source, types, hits).contains(
            ProposalView { edge_type: types[k].name@, to_id: hits[k]->0@[j].id@, score: hits[k]->0@[j].score },
        ),
{
    let hs = search::hit_views(hits[k]->0@);
    let name = types[k].name@;
    let es = edge::list_at(v.forward, (source, name));
    let part = infer::evaluated(hs, source, name, es);
    let all = infer::all_evaluated(v, source, types, hits);
    let p = ProposalView { edge_type: name, to_id: hs[j].id, score: hs[j].score };
    let keep = |h: HitView| h.id != source && none_leads_to(es, h.id);
    let make = |h: HitView| ProposalView { edge_type: name, to_id: h.id, score: h.score };
    lemma_type_proposals(hs, source, name, es);
    selection::lemma_selection_members(hs, part, keep, make);
    assert(keep(hs[j]));
    assert(part.contains(p));
    let i = choose|i: int| 0 <= i < part.len() && part[i] == p;
    lemma_types_follow(v, source, types, hits, k);
    let before = infer::all_evaluated(v, source, types.take(k), hits);
    let upto = infer::all_evaluated(v, source, types.take(k + 1), hits);
    assert(upto[before.len() + i] == p);
    if k + 1 < types.len() {
        lemma_types_follow(v, source, types, hits, k + 1);
    } else {
        assert(types.take(k + 1) =~= types);
    }
    assert(all[before.len() + i] == p);
}

proof fn lemma_evaluated_comes(
    v: AdjView,
    source: Seq<char>,
    types: Seq<EdgeType>,
    hits: Seq<Option<Vec<Hit>>>,
    floor: u32,
    p: ProposalView,
)
    requires
        infer::all_evaluated(v, source, types, hits).contains(p),
        !float_bits::f32_lt(p.score, floor),
    ensures
        is_qualified(v, source, types, hits, floor, p),
    decreases types.len(),
{
    let all = infer::all_evaluated(v, source, types, hits);
    if types.len() > 0 {
        let head = types.drop_last();
        let n = head.len() as int;
        let before = infer::all_evaluated(v, source, head, hits);
        let i = choose|i: int| 0 <= i < all.len() && all[i] == p;
        if i < before.len() {
            assert(before[i] == p);
            lemma_evaluated_comes(v, source, head, hits, floor, p);
            let (k, j) = choose|k: int, j: int|
                #![trigger head[k], search::hit_views(hits[k]->0@)[j]]
                0 <= k < head.len() && hits[k] is Some && 0 <= j < hits[k]->0@.len() && qualifies(
                    search::hit_views(hits[k]->0@)[j],
                    v,
                    source,
                    head[k].name@,
                    floor,
                ) && p.edge_type == head[k].name@ && p.to_id == hits[k]->0@[j].id@ && p.score
                    == hits[k]->0@[j].score;
            assert(types[k] == head[k]);
        } else {
            let name = types[n].name@;
            let hs = search::hit_views(hits[n]->0@);
            let es = edge::list_at(v.forward, (source, name));
            let part = infer::evaluated(hs, source, name, es);
            let keep = |h: HitView| h.id != source && none_leads_to(es, h.id);
            let make = |h: HitView| ProposalView { edge_type: name, to_id: h.id, score: h.score };
            lemma_type_proposals(hs, source, name, es);
            selection::lemma_selection_members(hs, part, keep, make);
            assert(part[i - before.len()] == p);
            assert(selection::made_of(hs, p, keep, make));
            let j = choose|j: int| 0 <= j < hs.len() && keep(#[trigger] hs[j]) && p == make(hs[j]);
            assert(qualifies(hs[j], v, source, name, floor));
        }
    }
}

/// An INFER EDGES proposes what qualifies and nothing else. For every edge type of the plan
/// that has hits, every hit that is not the source, to which no edge of that type from the
/// source leads already, and whose score is not below the floor, is a proposal of that
/// type where no more than the limit qualify; every proposal is such a hit; and there are
/// never more than the limit.
pub proof fn lemma_infer_proposes(
    v: AdjView,
    p: InferPlan,
    types: Seq<EdgeType>,
    hits: Seq<Option<Vec<Hit>>>,
    ps: Seq<ProposalView>,
)
    requires
        hits.len() == types.len(),
        infer::best_of(
            infer::not_below(infer::all_evaluated(v, p.from_id@, types, hits), infer::proposal_floor(p)),
            ps,
            infer::proposal_limit(p),
        ),
    ensures
        ps.len() <= infer::proposal_limit(p),
        forall|i: int|
            0 <= i < ps.len() ==> is_qualified(
                v,
                p.from_id@,
                types,
                hits,
                infer::proposal_floor(p),
                #[trigger] ps[i],
            ),
        infer::not_below(infer::all_evaluated(v, p.from_id@, types, hits), infer::proposal_floor(p)).len()
            <= infer::proposal_limit(p) ==> forall|k: int, j: int|
            #![trigger types[k], hits[k]->0@[j]]
            0 <= k < types.len() && hits[k] is Some && 0 <= j < hits[k]->0@.len() && qualifies(
                hits[k]->0@[j]@,
                v,
                p.from_id@,
                types[k].name@,
                infer::proposal_floor(p),
            ) ==> ps.contains(
                ProposalView { edge_type: types[k].name@, to_id: hits[k]->0@[j].id@, score: hits[k]->0@[j].score },
            ),
{
    let floor = infer::proposal_floor(p);
    let limit = infer::proposal_limit(p);
    let seen = infer::all_evaluated(v, p.from_id@, types, hits);
    let all = infer::not_below(seen, floor);
    let keep = |q: ProposalView| !float_bits::f32_lt(q.score, floor);
    let make = |q: ProposalView| q;
    lemma_floor_keeps(seen, floor);
    selection::lemma_selection_members(seen, all, keep, make);
    let s = choose|s: Seq<ProposalView>| #[trigger]
        sort::stably_sorted(all, s, infer::best_first()) && ps == rows::limited(s, Some(limit));
    let a = choose|a: Seq<int>| #[trigger] sort::arrangement(all, s, a) && (sort::total_on(all, infer::best_first())
        ==> sort::in_order(s, a, infer::best_first()));
    assert forall|i: int| 0 <= i < ps.len() implies is_qualified(v, p.from_id@, types, hits, floor, #[trigger] ps[i]) by {
        assert(ps[i] == s[i]);
        assert(s[i] == all[a[i]]);
        assert(selection::made_of(seen, all[a[i]], keep, make));
        let k = choose|k: int| 0 <= k < seen.len() && keep(#[trigger] seen[k]) && all[a[i]] == make(seen[k]);
        assert(seen.contains(ps[i]));
        lemma_evaluated_comes(v, p.from_id@, types, hits, floor, ps[i]);
    }
    if all.len() <= limit {
        assert(ps =~= s);
        assert forall|k: int, j: int|
            #![trigger types[k], hits[k]->0@[j]]
            0 <= k < types.len() && hits[k] is Some && 0 <= j < hits[k]->0@.len() && qualifies(
                hits[k]->0@[j]@,
                v,
                p.from_id@,
                types[k].name@,
                floor,
            ) implies ps.contains(
            ProposalView { edge_type: types[k].name@, to_id: hits[k]->0@[j].id@, score: hits[k]->0@[j].score },
        ) by {
            let q = ProposalView {
                edge_type: types[k].name@,
                to_id: hits[k]->0@[j].id@,
                score: hits[k]->0@[j].score,
            };
            lemma_evaluated_contains(v, p.from_id@, types, hits, k, j);
            let b = choose|b: int| 0 <= b < seen.len() && seen[b] == q;
            assert(keep(seen[b]));
            assert(all.contains(q));
            let c = choose|c: int| 0 <= c < all.len() && all[c] == q;
            sort::lemma_arrangement_onto(a, c);
            let i = choose|i: int| 0 <= i < a.len() && a[i] == c;
            assert(s[i] == all[a[i]]);
            assert(ps[i] == q);
        }
    }
}

/// Of what qualifies an INFER EDGES proposes the best: where every score is a number, the
/// scores of the proposals do not rise, and nothing that qualifies and is not proposed has
/// a greater score than any proposal.
pub proof fn lemma_best_proposed(all: Seq<ProposalView>, ps: Seq<ProposalView>, limit: usize)
    requires
        infer::best_of(all, ps, limit),
        forall|i: int| 0 <= i < all.len() ==> !float_bits::f32_is_nan((#[trigger] all[i]).score),
    ensures
        ps.len() == (if limit <= all.len() {
            limit as nat
        } else {
            all.len()
        }),
        forall|i: int, j: int|
            0 <= i < j < ps.len() ==> !float_bits::f32_lt((#[trigger] ps[i]).score, (#[trigger] ps[j]).score),
        forall|c: int, i: int|
            #![trigger all[c], ps[i]]
            0 <= c < all.len() && 0 <= i < ps.len() && float_bits::f32_lt(ps[i].score, all[c].score) ==> ps.contains(
                all[c],
            ),
{
    let s = choose|s: Seq<ProposalView>| #[trigger]
        sort::stably_sorted(all, s, infer::best_first()) && ps == rows::limited(s, Some(limit));
    let a = choose|a: Seq<int>| #[trigger] sort::arrangement(all, s, a) && (sort::total_on(all, infer::best_first())
        ==> sort::in_order(s, a, infer::best_first()));
    score::lemma_scores_total(all, |p: ProposalView| p.score, infer::best_first());
    assert forall|i: int, j: int| 0 <= i < j < s.len() implies !float_bits::f32_lt(
        (#[trigger] s[i]).score,
        (#[trigger] s[j]).score,
    ) by {
        assert(s[i] == all[a[i]] && s[j] == all[a[j]]);
    }
    assert forall|i: int, j: int| 0 <= i < j < ps.len() implies !float_bits::f32_lt(
        (#[trigger] ps[i]).score,
        (#[trigger] ps[j]).score,
    ) by {
        assert(ps[i] == s[i] && ps[j] == s[j]);
    }
    assert forall|c: int, i: int|
        #![trigger all[c], ps[i]]
        0 <= c < all.len() && 0 <= i < ps.len() && float_bits::f32_lt(ps[i].score, all[c].score) implies ps.contains(
        all[c],
    ) by {
        sort::lemma_arrangement_onto(a, c);
        let j = choose|j: int| 0 <= j < a.len() && a[j] == c;
        assert(s[j] == all[a[j]]);
        assert(ps[i] == s[i]);
        if j < ps.len() {
            assert(ps[j] == s[j]);
        } else {
            assert(!float_bits::f32_lt(s[i].score, s[j].score));
        }
    }
}

/// The row of a proposal says from where, to where, of which type and with what confidence.
pub proof fn lemma_proposal_row(from_id: Seq<char>, p: ProposalView)
    ensures
        ({
            let r = infer::proposal_row(from_id, p);
            &&& r.score == Some(p.score)
            &&& r.values["from_id"@] == Val::Str(from_id)
            &&& r.values["to_id"@] == Val::Str(p.to_id)
            &&& r.values["edge_type"@] == Val::Str(p.edge_type)
            &&& r.values["confidence"@] == Val::Float(float_bits::f32_to_f64(p.score))
            &&& forall|k: Seq<char>| #[trigger]
                r.values.contains_key(k) <==> k == "from_id"@ || k == "to_id"@ || k == "edge_type"@ || k
                    == "confidence"@
        }),
{
    reveal_strlit("from_id");
    reveal_strlit("to_id");
    reveal_strlit("edge_type");
    reveal_strlit("confidence");
    assert("from_id"@.len() != "to_id"@.len());
    assert("from_id"@.len() != "edge_type"@.len());
    assert("from_id"@.len() != "confidence"@.len());
    assert("to_id"@.len() != "edge_type"@.len());
    assert("to_id"@.len() != "confidence"@.len());
    assert("edge_type"@.len() != "confidence"@.len());
}

/// A plan that does not say how much to propose proposes no more than ten edges, of any
/// confidence that is not negative.
pub proof fn lemma_infer_defaults(p: InferPlan, score: u32)
    ensures
        p.limit is None ==> infer::proposal_limit(p) == 10,
        p.limit matches Some(n) ==> infer::proposal_limit(p) == n,
        p.confidence_floor is None ==> (float_bits::f32_lt(score, infer::proposal_floor(p)) <==> float_bits::f32_key(
            score,
        ) < 0 && !float_bits::f32_is_nan(score)),
        p.confidence_floor matches Some(c) ==> infer::proposal_floor(p) == c,
{
}

/// Edges are inferred from the first dense vector of an entity.
pub proof fn lemma_first_dense(rs: Seq<Representation>)
    ensures
        match infer::first_dense(rs) {
            Some(d) => exists|i: int|
                0 <= i < rs.len() && (#[trigger] rs[i]).vector is Dense && rs[i].vector->Dense_0@ == d && forall|j: int|
                    0 <= j < i ==> !((#[trigger] rs[j]).vector is Dense),
            None => forall|j: int| 0 <= j < rs.len() ==> !((#[trigger] rs[j]).vector is Dense),
        },
    decreases rs.len(),
{
    if rs.len() > 0 {
        let head = rs.drop_last();
        lemma_first_dense(head);
        assert(rs[rs.len() - 1] == rs.last());
        assert forall|j: int| 0 <= j < head.len() implies head[j] == #[trigger] rs[j] by {}
        match infer::first_dense(head) {
            Some(d) => {
                let i = choose|i: int|
                    0 <= i < head.len() && (#[trigger] head[i]).vector is Dense && head[i].vector->Dense_0@ == d
                        && forall|j: int| 0 <= j < i ==> !((#[trigger] head[j]).vector is Dense);
                assert(rs[i] == head[i]);
                assert forall|j: int| 0 <= j < i implies !((#[trigger] rs[j]).vector is Dense) by {
                    assert(head[j] == rs[j]);
                }
            },
            None => {
                assert forall|j: int| 0 <= j < head.len() implies !((#[trigger] rs[j]).vector is Dense) by {
                    assert(head[j] == rs[j]);
                }
            },
        }
    }
}

/// A plan that names no edge type infers along exactly those that lead from the collection,
/// in order.
pub proof fn lemma_infers_along_all(types: Seq<EdgeType>, collection: Seq<char>)
    ensures
        selection::is_selection(
            types,
            infer::types_from(types, collection),
            |t: EdgeType| t.from_collection@ == collection,
            |t: EdgeType| t,
        ),
    decreases types.len(),
{
    let keep = |t: EdgeType| t.from_collection@ == collection;
    let make = |t: EdgeType| t;
    let after = infer::types_from(types, collection);
    if types.len() == 0 {
        selection::lemma_selection_empty(types, after, keep, make);
    } else {
        lemma_infers_along_all(types.drop_last(), collection);
        selection::lemma_selection_grows(types, infer::types_from(types.drop_last(), collection), after, keep, make);
    }
}

/// Whether a name is that of a known edge type that leads from the collection, by the first
/// type of that name.
pub open spec fn leads_from(types: Seq<EdgeType>, name: Seq<char>, collection: Seq<char>, t: EdgeType) -> bool {
    exists|i: int|
        0 <= i < types.len() && (#[trigger] types[i]) == t && t.name@ == name && t.from_collection@ == collection && forall|
            j: int,
        |
            0 <= j < i ==> (#[trigger] types[j]).name@ != name
}

/// Whether a name is that of no known edge type, or of one that leads from elsewhere.
pub open spec fn leads_from_elsewhere(types: Seq<EdgeType>, name: Seq<char>, collection: Seq<char>) -> bool {
    forall|t: EdgeType| !#[trigger] leads_from(types, name, collection, t)
}

/// A plan that names edge types infers along exactly those, in the order of their names,
/// where each is known and leads from the collection; where one is not known or leads from
/// elsewhere, it is refused.
pub proof fn lemma_infers_along_named(types: Seq<EdgeType>, names: Seq<Seq<char>>, collection: Seq<char>)
    ensures
        match infer::types_named(types, names, collection) {
            Ok(ts) => ts.len() == names.len() && forall|i: int|
                0 <= i < names.len() ==> leads_from(types, #[trigger] names[i], collection, ts[i]),
            Err(_) => exists|i: int|
                0 <= i < names.len() && leads_from_elsewhere(types, #[trigger] names[i], collection),
        },
    decreases names.len(),
{
    if names.len() > 0 {
        let head = names.drop_last();
        let n = head.len() as int;
        assert(names[n] == names.last());
        lemma_infers_along_named(types, head, collection);
        lemma_type_first(types, names.last());
        match infer::types_named(types, head, collection) {
            Ok(before) => {
                assert forall|i: int| 0 <= i < n implies leads_from(
                    types,
                    #[trigger] names[i],
                    collection,
                    before[i],
                ) by {
                    assert(head[i] == names[i]);
                }
                match infer::type_place(types, names.last()) {
                    Some(at) => {
                        if types[at].from_collection@ == collection {
                            assert(leads_from(types, names[n], collection, types[at]));
                        } else {
                            assert forall|t: EdgeType| !#[trigger] leads_from(types, names[n], collection, t) by {
                                if leads_from(types, names[n], collection, t) {
                                    let i = choose|i: int|
                                        0 <= i < types.len() && (#[trigger] types[i]) == t && t.name@ == names[n]
                                            && t.from_collection@ == collection && forall|j: int|
                                            0 <= j < i ==> (#[trigger] types[j]).name@ != names[n];
                                    if i < at {
                                        assert(types[i].name@ != names[n]);
                                    } else if at < i {
                                        assert(types[at].name@ != names[n]);
                                    }
                                }
                            }
                            assert(leads_from_elsewhere(types, names[n], collection));
                        }
                    },
                    None => {
                        assert(leads_from_elsewhere(types, names[n], collection));
                    },
                }
            },
            Err(_) => {
                let i = choose|i: int|
                    0 <= i < head.len() && leads_from_elsewhere(types, #[trigger] head[i], collection);
                assert(names[i] == head[i]);
            },
        }
    }
}

proof fn lemma_type_first(types: Seq<EdgeType>, name: Seq<char>)
    ensures
        match infer::type_place(types, name) {
            Some(i) => 0 <= i < types.len() && types[i].name@ == name && forall|j: int|
                0 <= j < i ==> (#[trigger] types[j]).name@ != name,
            None => forall|i: int| 0 <= i < types.len() ==> (#[trigger] types[i]).name@ != name,
        },
    decreases types.len(),
{
    if types.len() > 0 {
        let head = types.drop_last();
        lemma_type_first(head, name);
        assert forall|i: int| 0 <= i < head.len() implies head[i] == #[trigger] types[i] by {}
        assert(types[types.len() - 1] == types.last());
    }
}

/// An INFER EDGES answers a row for each proposal, in order.
pub proof fn lemma_infer_answers(r: QueryResult, from_id: Seq<char>, ps: Seq<ProposalView>)
    requires
        infer::proposes(r, from_id, ps),
    ensures
        r.rows@.len() == ps.len(),
        forall|i: int|
            0 <= i < ps.len() ==> (#[trigger] r.rows@[i]).score == Some(ps[i].score) && r.rows@[i].values@["to_id"@]
                == Val::Str(ps[i].to_id) && r.rows@[i].values@["from_id"@] == Val::Str(from_id)
                && r.rows@[i].values@["edge_type"@] == Val::Str(ps[i].edge_type),
{
    let rs = rows::row_views(r.rows@);
    assert(rs.len() == r.rows@.len());
    assert forall|i: int| 0 <= i < ps.len() implies (#[trigger] r.rows@[i]).score == Some(ps[i].score)
        && r.rows@[i].values@["to_id"@] == Val::Str(ps[i].to_id) && r.rows@[i].values@["from_id"@] == Val::Str(from_id)
        && r.rows@[i].values@["edge_type"@] == Val::Str(ps[i].edge_type) by {
        assert(rs[i] == r.rows@[i]@);
        assert(rs[i] == infer::proposal_row(from_id, ps[i]));
        lemma_proposal_row(from_id, ps[i]);
    }
}

/// An INFER EDGES is recorded exactly where it goes along some edge types. The record names
/// the entity and the time, counts no more good hits than hits and no more proposals than
/// good hits, and lists the proposals in order with their scores.
pub proof fn lemma_infer_recorded(
    entry: Option<InferenceAuditEntry>,
    p: InferPlan,
    along_some: bool,
    seen: Seq<ProposalView>,
    ps: Seq<ProposalView>,
    now: u64,
)
    requires
        infer::audits(entry, p, along_some, seen, ps, now),
        infer::best_of(infer::not_below(seen, infer::proposal_floor(p)), ps, infer::proposal_limit(p)),
    ensures
        entry is Some <==> along_some,
        entry matches Some(e) ==> {
            &&& e.source_entity@ == p.from_id@
            &&& e.timestamp == now
            &&& e.trigger == InferenceTrigger::Explicit
            &&& e.candidates_evaluated == seen.len()
            &&& e.candidates_above_threshold <= e.candidates_evaluated
            &&& e.top_candidates@.len() <= e.candidates_above_threshold
            &&& e.top_candidates@.len() == ps.len()
            &&& forall|i: int|
                0 <= i < ps.len() ==> (#[trigger] e.top_candidates@[i]).entity_id@ == ps[i].to_id
                    && e.top_candidates@[i].similarity_score == ps[i].score && e.top_candidates@[i].accepted
        },
{
    let floor = infer::proposal_floor(p);
    let all = infer::not_below(seen, floor);
    lemma_floor_keeps(seen, floor);
    selection::lemma_selection_members(
        seen,
        all,
        |q: ProposalView| !float_bits::f32_lt(q.score, floor),
        |q: ProposalView| q,
    );
    let s = choose|s: Seq<ProposalView>| #[trigger]
        sort::stably_sorted(all, s, infer::best_first()) && ps == rows::limited(s, Some(infer::proposal_limit(p)));
    assert(s.len() == all.len());
}

/// An INFER EDGES goes along the edge types that it names, or where it names none along all
/// that lead from the collection, and is then never refused.
pub proof fn lemma_inferable(p: InferPlan, types: Seq<EdgeType>, collection: Seq<char>)
    ensures
        p.edge_types@.len() == 0 ==> infer::inferable(p, types, collection) is Ok,
        p.edge_types@.len() == 0 ==> selection::is_selection(
            types,
            infer::inferable(p, types, collection)->Ok_0,
            |t: EdgeType| t.from_collection@ == collection,
            |t: EdgeType| t,
        ),
        p.edge_types@.len() > 0 ==> match infer::inferable(p, types, collection) {
            Ok(ts) => ts.len() == p.edge_types@.len() && forall|i: int|
                0 <= i < p.edge_types@.len() ==> leads_from(types, (#[trigger] p.edge_types@[i])@, collection, ts[i]),
            Err(_) => exists|i: int|
                0 <= i < p.edge_types@.len() && leads_from_elsewhere(
                    types,
                    (#[trigger] p.edge_types@[i])@,
                    collection,
                ),
        },
{
    let names = text::views(p.edge_types@);
    lemma_infers_along_all(types, collection);
    lemma_infers_along_named(types, names, collection);
    match infer::types_named(types, names, collection) {
        Ok(ts) => {
            assert forall|i: int| 0 <= i < p.edge_types@.len() implies leads_from(
                types,
                (#[trigger] p.edge_types@[i])@,
                collection,
                ts[i],
            ) by {
                assert(names[i] == p.edge_types@[i]@);
            }
        },
        Err(_) => {
            let i = choose|i: int|
                0 <= i < names.len() && leads_from_elsewhere(types, #[trigger] names[i], collection);
            assert(names[i] == p.edge_types@[i]@);
        },
    }
}

} // verus!
