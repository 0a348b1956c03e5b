//! What holds of every call of a function that decides on a few plain values.

use vstd::prelude::*;
use vstd::string::*;

use crate::background;
use crate::condition_laws;
use crate::edge;
use crate::edge::{AdjacencyIndex, DecayConfig, DecayFn, DecayRule, Edge, EdgeType, EntryView};
use crate::error::{EngineError, ErrorView};
use crate::fetch;
use crate::fetch::{FetchAccess, FetchPlan};
use crate::field_index;
use crate::fields::FieldMap;
use crate::filter;
use crate::filter::WhereClause;
use crate::float_bits;
use crate::graph;
use crate::graph::CreateEdgeTypePlan;
use crate::infer;
use crate::infer::{InferPlan, ProposalView};
use crate::infer_laws;
use crate::inference::InferenceAuditEntry;
use crate::insert;
use crate::plan;
use crate::result::QueryResult;
use crate::rows;
use crate::search;
use crate::search::{Hit, HitView, SearchPlan};
use crate::search_laws;
use crate::sort;
use crate::text;
use crate::traverse;
use crate::traverse::{EdgeDirection, Link, LinkView, TraverseMatchPlan, TraversePlan, WalkRule};
use crate::types::{CollectionSchema, Entity, ReprState, ReprType, Representation, StoredRepresentation, VectorData};
use crate::value::{LogicalId, Val, Value};
use crate::walk_laws;

verus! {

/// An edge whose age is not known has none, whenever it is asked for. Any other has no age
/// until it is made, and then ages with the clock and never gets younger.
pub proof fn lemma_edge_ages(created_at: u64, early: u64, late: u64, a: Option<u64>, b: Option<u64>)
    requires
        call_ensures(traverse::edge_age, (created_at, early), a),
        call_ensures(traverse::edge_age, (created_at, late), b),
        early <= late,
    ensures
        a is None <==> created_at == 0,
        b is None <==> created_at == 0,
        created_at != 0 && early <= created_at ==> a == Some(0u64),
        created_at != 0 ==> a->0 <= b->0,
        created_at != 0 && created_at <= early ==> b->0 - a->0 == late - early,
{
}

/// A TRAVERSE follows every edge where its type has no prune threshold, and otherwise those
/// that are not below it; it answers nodes at every distance, without notes.
pub proof fn lemma_traverse_follows(p: TraversePlan, threshold: Option<u32>, r: WalkRule, confidence: u32, n: usize)
    requires
        call_ensures(traverse::traverse_rule, (&p, threshold), r),
    ensures
        threshold is None ==> r.gate.admits(confidence),
        threshold is Some ==> (r.gate.admits(confidence) <==> !float_bits::f32_lt(confidence, threshold->0)),
        r.min_depth == 0,
        !r.annotate,
        n <= r.limit <==> (p.limit matches Some(l) ==> n <= l),
{
}

/// A TRAVERSE MATCH follows exactly the edges whose confidence is a number that is at least
/// the threshold, or zero where there is none, and answers no node nearer than it asks for.
pub proof fn lemma_match_follows(p: TraverseMatchPlan, r: WalkRule, confidence: u32, n: usize)
    requires
        call_ensures(traverse::match_rule, (&p,), r),
    ensures
        r.gate.admits(confidence) ==> !float_bits::f32_is_nan(confidence),
        p.confidence_threshold matches Some(t) ==> (r.gate.admits(confidence) ==> !float_bits::f32_lt(confidence, t)),
        p.confidence_threshold matches Some(t) ==> (float_bits::f32_lt(t, confidence) ==> r.gate.admits(confidence)),
        p.confidence_threshold is None && float_bits::f32_lt(confidence, 0) ==> !r.gate.admits(confidence),
        p.confidence_threshold is None && float_bits::f32_lt(0, confidence) ==> r.gate.admits(confidence),
        r.min_depth == p.min_depth,
        r.annotate,
        n <= r.limit <==> (p.limit matches Some(l) ==> n <= l),
{
}

/// A SEARCH looks a value up beforehand exactly where it has a pre-filter; it is refused
/// where the collection is not known, the index is not registered or the clause is not an
/// equality.
pub proof fn lemma_pre_filter(p: SearchPlan, has_collection: bool, index_exists: bool, r: Result<Option<Value>, EngineError>)
    requires
        call_ensures(search::search_pre_filter, (&p, has_collection, index_exists), r),
    ensures
        r is Ok <==> has_collection && (p.pre_filter is None || (index_exists && p.pre_filter->0.clause is Eq)),
        r matches Ok(v) ==> (v is Some <==> p.pre_filter is Some),
        !has_collection ==> (r matches Err(e) && e@ == ErrorView::CollectionNotFound(p.collection@)),
        r matches Ok(Some(v)) ==> (p.pre_filter->0.clause matches WhereClause::Eq(_, lit) && v@ == lit@),
{
}

/// A text is searched for only where there is something to make a dense vector of it and an
/// index of such vectors, which is one of the collection.
pub proof fn lemma_text_searched(
    p: SearchPlan,
    repr: &str,
    has_vectoriser: bool,
    dense: bool,
    has_index: bool,
    r: Result<String, EngineError>,
)
    requires
        call_ensures(search::text_search_key, (&p, repr, has_vectoriser, dense, has_index), r),
    ensures
        r is Ok <==> has_vectoriser && dense && has_index,
        r matches Ok(key) ==> text::has_prefix(key@, p.collection@ + ":"@) && key@.skip(
            (p.collection@ + ":"@).len() as int,
        ) == repr@,
{
    if let Ok(key) = r {
        let c = p.collection@ + ":"@;
        assert(key@.subrange(0, c.len() as int) =~= c);
        assert(key@.skip(c.len() as int) =~= repr@);
    }
}

/// A FETCH reads every entity exactly where its plan names no index, and is refused where
/// the index that it names is not registered or its filter is of no use for it.
pub proof fn lemma_fetch_reads(p: FetchPlan, index_exists: bool, r: Result<FetchAccess, EngineError>)
    requires
        call_ensures(fetch::fetch_access, (&p, index_exists), r),
    ensures
        p.strategy is FullScan <==> r matches Ok(FetchAccess::Scan),
        !(p.strategy is FullScan) && !index_exists ==> r is Err,
        p.strategy is FieldIndexLookup && index_exists ==> (r is Ok <==> p.filter is Some && p.filter->0 is Eq),
        p.strategy is FieldIndexRange && index_exists ==> (r is Ok <==> p.filter is Some),
        r matches Ok(FetchAccess::Lookup(v)) ==> p.strategy is FieldIndexLookup && v@.len() == 1 && (
        p.filter matches Some(WhereClause::Eq(_, lit)) && v@[0]@ == lit@),
        r matches Ok(FetchAccess::Range(a, b)) ==> p.strategy is FieldIndexRange,
{
    if let Ok(FetchAccess::Lookup(v)) = r {
        let vs = field_index::vals(v@);
        assert(vs.len() == v@.len());
        assert(vs[0] == v@[0]@);
    }
}

/// An edge type is made exactly where both its collections are known; where its decay and
/// its inference are not declared, its edges are never swept and none is inferred by itself.
pub proof fn lemma_edge_type_made(p: CreateEdgeTypePlan, from_known: bool, to_known: bool, r: Result<EdgeType, EngineError>)
    requires
        call_ensures(graph::create_edge_type, (&p, from_known, to_known), r),
    ensures
        r is Ok <==> from_known && to_known,
        !from_known ==> r->Err_0@ == ErrorView::CollectionNotFound(p.from_collection@),
        from_known && !to_known ==> r->Err_0@ == ErrorView::CollectionNotFound(p.to_collection@),
        r matches Ok(t) ==> t.name@ == p.name@ && t.from_collection@ == p.from_collection@ && t.to_collection@
            == p.to_collection@,
        r matches Ok(t) ==> (p.decay_config is None ==> !background::swept(t)),
        r matches Ok(t) ==> (p.inference_config is None ==> !t.inference_config.auto),
        r matches Ok(t) ==> (p.decay_config matches Some(c) ==> t.decay_config == c),
        r matches Ok(t) ==> (p.inference_config matches Some(c) ==> t.inference_config == c),
{
}

/// A stale vector is computed again only where its entity is stored, there is something to
/// compute it with, and its representation is declared with fields.
pub proof fn lemma_recomputed(stored: bool, schema: Option<&CollectionSchema>, i: u32, has_vectoriser: bool, b: bool)
    requires
        call_ensures(background::is_recomputed, (stored, schema, i, has_vectoriser), b),
    ensures
        b ==> stored && has_vectoriser && schema is Some,
        b ==> i < schema->0.representations@.len() && schema->0.representations@[i as int].fields@.len() > 0,
        stored && has_vectoriser && schema is Some && i < schema->0.representations@.len()
            && schema->0.representations@[i as int].fields@.len() > 0 ==> b,
{
}

/// Nothing decays at once, nor without a function to decay by. How an edge decays after that
/// does not depend on how long it has, and is another way for another function.
pub proof fn lemma_decays(
    early: u64,
    late: u64,
    c: DecayConfig,
    d: DecayConfig,
    at_once: DecayRule,
    a: DecayRule,
    b: DecayRule,
    x: DecayRule,
)
    requires
        call_ensures(edge::decay_rule, (0u64, &c), at_once),
        call_ensures(edge::decay_rule, (early, &c), a),
        call_ensures(edge::decay_rule, (late, &c), b),
        call_ensures(edge::decay_rule, (late, &d), x),
        early > 0,
        late > 0,
    ensures
        at_once == DecayRule::Unchanged,
        a == b,
        a == DecayRule::Unchanged <==> c.decay_fn is None,
        b == x <==> c.decay_fn == d.decay_fn,
        c.decay_fn == Some(DecayFn::Step) <==> b == DecayRule::Step,
        c.decay_fn == Some(DecayFn::Linear) <==> b == DecayRule::Linear,
{
}

/// The edge that a hit becomes leads from the entity to the hit with its score, and may be
/// pruned. With it in place the hit becomes no second edge.
pub proof fn lemma_becomes_edge(id: LogicalId, t: &str, hit: Hit, now: u64, e: Edge, es: Seq<EntryView>, floor: u32)
    requires
        call_ensures(background::inferred_edge, (&id, t, &hit, now), e),
    ensures
        e@.from_id == id@,
        e@.to_id == hit.id@,
        e@.edge_type == t@,
        e@.confidence == hit.score,
        e@.created_at == now,
        forall|effective: u32, least: u32| #[trigger]
            background::pruned(e@.source, effective, least) <==> float_bits::f32_lt(effective, least),
        !background::taken(
            hit@,
            id@,
            es.push(
                EntryView {
                    to_id: e@.to_id,
                    confidence: e@.confidence,
                    created_at: e@.created_at,
                    source: e@.source,
                },
            ),
            floor,
        ),
{
    let x = EntryView {
        to_id: e@.to_id,
        confidence: e@.confidence,
        created_at: e@.created_at,
        source: e@.source,
    };
    assert(es.push(x)[es.len() as int] == x);
    assert(infer::leads_to(es.push(x), hit@.id));
}

/// A computed vector has the name and the fields of its representation and the hash of its
/// recipe, is clean, and is composite exactly where it has more than one field.
pub proof fn lemma_computed(repr: StoredRepresentation, v: VectorData, hash: [u8; 32], r: Representation)
    requires
        call_ensures(insert::computed_representation, (&repr, v, hash), r),
    ensures
        r.name@ == repr.name@,
        r.vector == v,
        r.recipe_hash == hash,
        r.state == ReprState::Clean,
        r.fields@.len() == repr.fields@.len(),
        forall|i: int| 0 <= i < r.fields@.len() ==> (#[trigger] r.fields@[i])@ == repr.fields@[i]@,
        r.repr_type == ReprType::Composite <==> r.fields@.len() > 1,
        r.repr_type == ReprType::Atomic <==> r.fields@.len() <= 1,
{
    let a = text::views(r.fields@);
    let b = text::views(repr.fields@);
    assert(a.len() == r.fields@.len() && b.len() == repr.fields@.len());
    assert forall|i: int| 0 <= i < r.fields@.len() implies (#[trigger] r.fields@[i])@ == repr.fields@[i]@ by {
        assert(a[i] == r.fields@[i]@);
        assert(b[i] == repr.fields@[i]@);
    }
}

/// The size of a collection is that of the first vector index of it, and the number of its
/// entities only where it has none.
pub proof fn lemma_collection_size(keys: Vec<String>, sizes: Vec<usize>, collection: &str, entities: usize, n: usize, i: int)
    requires
        call_ensures(plan::collection_size, (&keys, &sizes, collection, entities), n),
        sizes@.len() == keys@.len(),
        0 <= i <= keys@.len(),
        forall|j: int| 0 <= j < i ==> !text::has_prefix((#[trigger] keys@[j])@, collection@ + ":"@),
    ensures
        i == keys@.len() ==> n == entities,
        i < keys@.len() && text::has_prefix(keys@[i]@, collection@ + ":"@) ==> n == sizes@[i],
{
    let names = text::views(keys@);
    let prefix = collection@ + ":"@;
    assert(names.len() == keys@.len());
    assert forall|j: int| 0 <= j < i implies !text::has_prefix(#[trigger] names[j], prefix) by {
        assert(names[j] == keys@[j]@);
    }
    lemma_first_of(names, prefix, i);
    if i < keys@.len() {
        assert(names[i] == keys@[i]@);
    }
}

proof fn lemma_first_of(names: Seq<Seq<char>>, prefix: Seq<char>, i: int)
    requires
        0 <= i <= names.len(),
        forall|j: int| 0 <= j < i ==> !text::has_prefix(#[trigger] names[j], prefix),
    ensures
        i == names.len() ==> search::first_scoped(names, prefix) is None,
        i < names.len() && text::has_prefix(names[i], prefix) ==> search::first_scoped(names, prefix) == Some(i),
    decreases names.len(),
{
    if names.len() > 0 {
        let head = names.drop_last();
        let k: int = if i < names.len() {
            i
        } else {
            i - 1
        };
        assert forall|j: int| 0 <= j < k implies !text::has_prefix(#[trigger] head[j], prefix) by {
            assert(head[j] == names[j]);
        }
        lemma_first_of(head, prefix, k);
        if k < i {
            assert(!text::has_prefix(names[k], prefix));
        }
    }
}

/// An entity satisfies a disjunction exactly where it satisfies one of its sides, a
/// conjunction where it satisfies both, and a negation where it does not satisfy the clause.
pub proof fn lemma_entity_matches(
    e: Entity,
    a: WhereClause,
    b: WhereClause,
    x: bool,
    y: bool,
    either: bool,
    both: bool,
    neg: bool,
)
    requires
        call_ensures(filter::entity_matches, (&e, &a), x),
        call_ensures(filter::entity_matches, (&e, &b), y),
        call_ensures(filter::entity_matches, (&e, &WhereClause::Or(Box::new(a), Box::new(b))), either),
        call_ensures(filter::entity_matches, (&e, &WhereClause::And(Box::new(a), Box::new(b))), both),
        call_ensures(filter::entity_matches, (&e, &WhereClause::Not(Box::new(a))), neg),
    ensures
        either <==> x || y,
        both <==> x && y,
        neg <==> !x,
{
    condition_laws::lemma_connectives(e.id@, e.metadata@, a, b);
}

/// A joined row satisfies a disjunction exactly where it satisfies one of its sides, a
/// conjunction where it satisfies both, and a negation where it does not satisfy the clause.
pub proof fn lemma_row_matches(
    m: FieldMap,
    a: WhereClause,
    b: WhereClause,
    x: bool,
    y: bool,
    either: bool,
    both: bool,
    neg: bool,
)
    requires
        call_ensures(filter::join_row_matches, (&m, &a), x),
        call_ensures(filter::join_row_matches, (&m, &b), y),
        call_ensures(filter::join_row_matches, (&m, &WhereClause::Or(Box::new(a), Box::new(b))), either),
        call_ensures(filter::join_row_matches, (&m, &WhereClause::And(Box::new(a), Box::new(b))), both),
        call_ensures(filter::join_row_matches, (&m, &WhereClause::Not(Box::new(a))), neg),
    ensures
        either <==> x || y,
        both <==> x && y,
        neg <==> !x,
{
    condition_laws::lemma_connectives(Seq::empty(), m@, a, b);
}

/// Where the entity of every hit is stored, a SEARCH answers one row for each hit, in the
/// order of the hits, with its score and the fields of its entity.
pub proof fn lemma_search_answer(hits: Vec<Hit>, found: Vec<Option<Entity>>, p: SearchPlan, r: QueryResult, i: int)
    requires
        call_ensures(search::search_answer, (&hits, &found, &p), r),
        hits@.len() == found@.len(),
        forall|j: int| 0 <= j < found@.len() ==> (#[trigger] found@[j]) is Some,
        0 <= i < hits@.len(),
    ensures
        r.rows@.len() == hits@.len(),
        r.rows@[i].score == Some(hits@[i].score),
        search_laws::shows(r.rows@[i].values@, found@[i]->0.id@, found@[i]->0.metadata@, p.fields),
        r.entities_scanned == hits@.len(),
{
    let hs = search::hit_views(hits@);
    let vs = rows::row_views(r.rows@);
    search_laws::lemma_search_rows_follow_hits(hs, found@, p.fields);
    assert(vs.len() == r.rows@.len() && hs.len() == hits@.len());
    assert(vs[i] == r.rows@[i]@);
    assert(hs[i] == hits@[i]@);
}

/// Every edge of a type that leads to a node is among the links that go back from it, with
/// the node that it comes from, whatever else leads there; nothing else is.
pub proof fn lemma_links_back(
    adjacency: AdjacencyIndex,
    node: LogicalId,
    edge_type: &str,
    r: Vec<Link>,
    source: Seq<char>,
    e: EntryView,
)
    requires
        call_ensures(traverse::links, (&adjacency, &node, edge_type, EdgeDirection::Backward), r),
    ensures
        walk_laws::comes_from(adjacency@, source, edge_type@, node@, e) <==> exists|i: int|
            0 <= i < r@.len() && (#[trigger] r@[i])@ == (LinkView { id: source, entry: e, forward: false }),
{
    let back = traverse::link_views(r@);
    let l = LinkView { id: source, entry: e, forward: false };
    walk_laws::lemma_links_are_edges(adjacency@, node@, edge_type@);
    assert(back.len() == r@.len());
    if walk_laws::comes_from(adjacency@, source, edge_type@, node@, e) {
        assert(back.contains(l));
        let i = choose|i: int| 0 <= i < back.len() && back[i] == l;
        assert(back[i] == r@[i]@);
    }
    if exists|i: int| 0 <= i < r@.len() && (#[trigger] r@[i])@ == l {
        let i = choose|i: int| 0 <= i < r@.len() && (#[trigger] r@[i])@ == l;
        assert(back[i] == r@[i]@);
    }
}

/// Whether a row proposes an edge of a type to an entity, with a score.
pub open spec fn row_proposes(r: QueryResult, i: int, from: Seq<char>, edge_type: Seq<char>, h: HitView) -> bool {
    &&& 0 <= i < r.rows@.len()
    &&& r.rows@[i].score == Some(h.score)
    &&& r.rows@[i].values@["from_id"@] == Val::Str(from)
    &&& r.rows@[i].values@["to_id"@] == Val::Str(h.id)
    &&& r.rows@[i].values@["edge_type"@] == Val::Str(edge_type)
}

/// Where an INFER EDGES answers fewer rows than it may, every hit for every edge type that
/// qualifies has a row: it is not the source, no edge of the type leads to it already, and
/// its score is not below the floor. There are never more rows than it may answer.
pub proof fn lemma_infer_answers_all(
    p: InferPlan,
    types: Vec<EdgeType>,
    hits: Vec<Option<Vec<Hit>>>,
    adjacency: AdjacencyIndex,
    now: u64,
    r: (QueryResult, Option<InferenceAuditEntry>),
    limit: usize,
    floor: u32,
    k: int,
    j: int,
)
    requires
        call_ensures(infer::infer_answer, (&p, &types, &hits, &adjacency, now), r),
        hits@.len() == types@.len(),
        p.limit == Some(limit),
        p.confidence_floor == Some(floor),
        0 <= k < types@.len(),
        hits@[k] is Some,
        0 <= j < hits@[k]->0@.len(),
    ensures
        r.0.rows@.len() <= limit,
        r.0.rows@.len() < limit && infer_laws::qualifies(
            hits@[k]->0@[j]@,
            adjacency@,
            p.from_id@,
            types@[k].name@,
            floor,
        ) ==> exists|i: int| #[trigger] row_proposes(r.0, i, p.from_id@, types@[k].name@, hits@[k]->0@[j]@),
        r.1 is Some,
{
    let seen = infer::all_evaluated(adjacency@, p.from_id@, types@, hits@);
    let all = infer::not_below(seen, infer::proposal_floor(p));
    let h = hits@[k]->0@[j]@;
    let ps = choose|ps: Seq<ProposalView>| #[trigger]
        infer::best_of(all, ps, infer::proposal_limit(p)) && infer::proposes(r.0, p.from_id@, ps) && infer::audits(
            r.1,
            p,
            types@.len() > 0,
            seen,
            ps,
            now,
        );
    infer_laws::lemma_infer_proposes(adjacency@, p, types@, hits@, ps);
    infer_laws::lemma_infer_answers(r.0, p.from_id@, ps);
    if r.0.rows@.len() < limit && infer_laws::qualifies(h, adjacency@, p.from_id@, types@[k].name@, floor) {
        let s = choose|s: Seq<ProposalView>| #[trigger]
            sort::stably_sorted(all, s, infer::best_first()) && ps == rows::limited(s, Some(infer::proposal_limit(p)));
        let q = ProposalView { edge_type: types@[k].name@, to_id: h.id, score: h.score };
        assert(s.len() == all.len());
        assert(types@[k].name@ == q.edge_type);
        assert(hits@[k]->0@[j].id@ == h.id);
        assert(ps.contains(q));
        let i = choose|i: int| 0 <= i < ps.len() && ps[i] == q;
        assert(r.0.rows@[i].score == Some(ps[i].score));
        assert(row_proposes(r.0, i, p.from_id@, types@[k].name@, h));
    }
}

} // verus!
