//! INFER: the edges that similarity proposes.

use vstd::prelude::*;
use vstd::string::*;

use crate::edge;
use crate::edge::{AdjEntry, AdjView, AdjacencyIndex, EdgeType, EntryView};
use crate::error::{EngineError, ErrorView};
use crate::fields::FieldMap;
use crate::float_bits;
use crate::float_bits::{double_of_single, single_less};
use crate::inference::{InferenceAuditEntry, InferenceCandidate, InferenceTrigger};
use crate::result::{QueryMode, QueryResult};
use crate::rows;
use crate::rows::{Row, RowView};
use crate::score;
use crate::score::rank_scores;
use crate::search;
use crate::search::{Hit, HitView};
use crate::sort;
use crate::sort::{stable_sort, Comparator};
use crate::text;
use crate::text::{cat3, cat5, own, text_equal};
use crate::types::{Representation, VectorData};
use crate::value::{id_value, ids_equal, LogicalId, Rank, Val, Value};

verus! {

/// A planned INFER EDGES. The floor is the bits of a single.
#[derive(Debug)]
pub struct InferPlan {
    pub from_id: String,
    pub edge_types: Vec<String>,
    pub limit: Option<usize>,
    pub confidence_floor: Option<u32>,
}

/// The most proposals of an INFER EDGES that does not say.
pub const DEFAULT_INFER_LIMIT: usize = 10;

/// The most proposals.
pub open spec fn proposal_limit(p: InferPlan) -> usize {
    match p.limit {
        Some(n) => n,
        None => DEFAULT_INFER_LIMIT,
    }
}

/// The least confidence of a proposal; zero where the plan does not say.
pub open spec fn proposal_floor(p: InferPlan) -> u32 {
    match p.confidence_floor {
        Some(c) => c,
        None => 0,
    }
}

/// How many hits are asked of a vector index: more than are proposed, for some drop
/// out.
pub fn infer_fetch_k(limit: usize) -> (k: usize)
    requires
        limit * 4 <= usize::MAX,
    ensures
        k == limit * 4,
{
    limit * 4
}

/// The collection of the entity that edges are inferred from, where it is known.
pub fn infer_collection(p: &InferPlan, known: Option<&String>) -> (r: Result<String, EngineError>)
    ensures
        match r {
            Ok(c) => known is Some && c@ == known->0@,
            Err(e) => known is None && e@ == ErrorView::InvalidQuery(
                "entity '"@ + p.from_id@ + "' not found in any collection"@,
            ),
        },
{
    match known {
        Some(c) => Ok(c.clone()),
        None => Err(EngineError::InvalidQuery(cat3("entity '", p.from_id.as_str(), "' not found in any collection"))),
    }
}

/// The first dense vector among representations.
pub open spec fn first_dense(rs: Seq<Representation>) -> Option<Seq<u32>>
    decreases rs.len(),
{
    if rs.len() == 0 {
        None
    } else {
        match first_dense(rs.drop_last()) {
            Some(v) => Some(v),
            None => match rs.last().vector {
                VectorData::Dense(v) => Some(v@),
                VectorData::Sparse(_) => None,
            },
        }
    }
}

proof fn lemma_dense_stays(rs: Seq<Representation>, i: int)
    requires
        0 <= i <= rs.len(),
        first_dense(rs.subrange(0, i)) is Some,
    ensures
        first_dense(rs) == first_dense(rs.subrange(0, i)),
    decreases rs.len() - i,
{
    if i < rs.len() {
        assert(rs.subrange(0, i + 1).drop_last() =~= rs.subrange(0, i));
        lemma_dense_stays(rs, i + 1);
    } else {
        assert(rs.subrange(0, i) =~= rs);
    }
}

/// The vector that edges are inferred from: the first dense one of the entity.
pub fn infer_vector<'a>(from_id: &str, rs: &'a Vec<Representation>) -> (r: Result<&'a Vec<u32>, EngineError>)
    ensures
        match r {
            Ok(v) => first_dense(rs@) == Some(v@),
            Err(e) => first_dense(rs@) is None && e@ == ErrorView::InvalidQuery(
                "entity '"@ + from_id@ + "' has no dense vector representation"@,
            ),
        },
{
    let ghost all = rs@;
    let mut i: usize = 0;
    while i < rs.len()
        invariant
            i <= rs.len(),
            all == rs@,
            first_dense(all.subrange(0, i as int)) is None,
        decreases rs.len() - i,
    {
        proof {
            let next = all.subrange(0, i as int + 1);
            assert(next.drop_last() =~= all.subrange(0, i as int));
            assert(next.last() == all[i as int]);
        }
        match &rs[i].vector {
            VectorData::Dense(v) => {
                proof {
                    lemma_dense_stays(all, i as int + 1);
                }
                return Ok(v);
            },
            VectorData::Sparse(_) => {},
        }
        i += 1;
    }
    assert(all.subrange(0, all.len() as int) =~= all);
    Err(EngineError::InvalidQuery(cat3("entity '", from_id, "' has no dense vector representation")))
}

/// The edge types that lead from a collection.
pub open spec fn types_from(types: Seq<EdgeType>, collection: Seq<char>) -> Seq<EdgeType>
    decreases types.len(),
{
    if types.len() == 0 {
        Seq::empty()
    } else {
        let before = types_from(types.drop_last(), collection);
        if types.last().from_collection@ == collection {
            before.push(types.last())
        } else {
            before
        }
    }
}

/// The place of the first edge type with a name.
pub open spec fn type_place(types: Seq<EdgeType>, name: Seq<char>) -> Option<int>
    decreases types.len(),
{
    if types.len() == 0 {
        None
    } else {
        match type_place(types.drop_last(), name) {
            Some(i) => Some(i),
            None => if types.last().name@ == name {
                Some(types.len() - 1)
            } else {
                None
            },
        }
    }
}

proof fn lemma_type_stays(types: Seq<EdgeType>, name: Seq<char>, i: int)
    requires
        0 <= i <= types.len(),
        type_place(types.subrange(0, i), name) is Some,
    ensures
        type_place(types, name) == type_place(types.subrange(0, i), name),
    decreases types.len() - i,
{
    if i < types.len() {
        assert(types.subrange(0, i + 1).drop_last() =~= types.subrange(0, i));
        lemma_type_stays(types, name, i + 1);
    } else {
        assert(types.subrange(0, i) =~= types);
    }
}

/// The place of the first edge type with a name.
pub fn find_type(types: &Vec<EdgeType>, name: &str) -> (r: Option<usize>)
    ensures
        match r {
            Some(i) => i < types.len() && type_place(types@, name@) == Some(i as int),
            None => type_place(types@, name@) is None,
        },
{
    let ghost all = types@;
    let mut i: usize = 0;
    while i < types.len()
        invariant
            i <= types.len(),
            all == types@,
            type_place(all.subrange(0, i as int), name@) is None,
        decreases types.len() - i,
    {
        proof {
            let next = all.subrange(0, i as int + 1);
            assert(next.drop_last() =~= all.subrange(0, i as int));
            assert(next.last() == all[i as int]);
        }
        if text_equal(types[i].name.as_str(), name) {
            proof {
                lemma_type_stays(all, name@, i as int + 1);
            }
            return Some(i);
        }
        i += 1;
    }
    assert(all.subrange(0, all.len() as int) =~= all);
    None
}

/// The edge types of the given names, in order, all of which must be known and lead
/// from the collection; the error is that of the first name at fault.
pub open spec fn types_named(types: Seq<EdgeType>, names: Seq<Seq<char>>, collection: Seq<char>) -> Result<
    Seq<EdgeType>,
    ErrorView,
>
    decreases names.len(),
{
    if names.len() == 0 {
        Ok(Seq::empty())
    } else {
        match types_named(types, names.drop_last(), collection) {
            Err(e) => Err(e),
            Ok(before) => match type_place(types, names.last()) {
                None => Err(ErrorView::InvalidQuery("edge type '"@ + names.last() + "' not found"@)),
                Some(i) => if types[i].from_collection@ != collection {
                    Err(
                        ErrorView::InvalidQuery(
                            "edge type '"@ + names.last() + "' from_collection '"@ + types[i].from_collection@ + (
                            "' does not match entity collection '"@ + collection + "'"@),
                        ),
                    )
                } else {
                    Ok(before.push(types[i]))
                },
            },
        }
    }
}

/// The edge types along which a plan infers.
pub open spec fn inferable(p: InferPlan, types: Seq<EdgeType>, collection: Seq<char>) -> Result<
    Seq<EdgeType>,
    ErrorView,
> {
    if p.edge_types@.len() == 0 {
        Ok(types_from(types, collection))
    } else {
        types_named(types, text::views(p.edge_types@), collection)
    }
}

proof fn lemma_type_error_stays(types: Seq<EdgeType>, names: Seq<Seq<char>>, collection: Seq<char>, i: int)
    requires
        0 <= i <= names.len(),
        types_named(types, names.subrange(0, i), collection) is Err,
    ensures
        types_named(types, names, collection) == types_named(types, names.subrange(0, i), collection),
    decreases names.len() - i,
{
    if i < names.len() {
        assert(names.subrange(0, i + 1).drop_last() =~= names.subrange(0, i));
        lemma_type_error_stays(types, names, collection, i + 1);
    } else {
        assert(names.subrange(0, i) =~= names);
    }
}

/// The edge types along which a plan infers: those named, or all from the collection.
pub fn inferable_types(p: &InferPlan, types: &Vec<EdgeType>, collection: &str) -> (r: Result<
    Vec<EdgeType>,
    EngineError,
>)
    ensures
        match r {
            Ok(v) => inferable(*p, types@, collection@) == Ok::<Seq<EdgeType>, ErrorView>(v@),
            Err(e) => inferable(*p, types@, collection@) == Err::<Seq<EdgeType>, ErrorView>(e@),
        },
{
    let mut r: Vec<EdgeType> = Vec::new();
    if p.edge_types.len() == 0 {
        let ghost all = types@;
        let mut i: usize = 0;
        proof {
            assert(r@ =~= types_from(all.subrange(0, 0), collection@));
        }
        while i < types.len()
            invariant
                i <= types.len(),
                all == types@,
                r@ == types_from(all.subrange(0, i as int), collection@),
            decreases types.len() - i,
        {
            proof {
                let next = all.subrange(0, i as int + 1);
                assert(next.drop_last() =~= all.subrange(0, i as int));
                assert(next.last() == all[i as int]);
            }
            if text_equal(types[i].from_collection.as_str(), collection) {
                r.push(types[i].clone());
            }
            i += 1;
        }
        assert(all.subrange(0, all.len() as int) =~= all);
        return Ok(r);
    }
    let ghost all = text::views(p.edge_types@);
    let mut i: usize = 0;
    while i < p.edge_types.len()
        invariant
            i <= p.edge_types.len(),
            p.edge_types@.len() > 0,
            all == text::views(p.edge_types@),
            types_named(types@, all.subrange(0, i as int), collection@) == Ok::<Seq<EdgeType>, ErrorView>(r@),
        decreases p.edge_types.len() - i,
    {
        let name = p.edge_types[i].as_str();
        proof {
            let next = all.subrange(0, i as int + 1);
            assert(next.drop_last() =~= all.subrange(0, i as int));
            assert(next.last() == name@);
        }
        match find_type(types, name) {
            None => {
                proof {
                    lemma_type_error_stays(types@, all, collection@, i as int + 1);
                }
                return Err(EngineError::InvalidQuery(cat3("edge type '", name, "' not found")));
            },
            Some(at) => {
                let t = &types[at];
                if !text_equal(t.from_collection.as_str(), collection) {
                    proof {
                        lemma_type_error_stays(types@, all, collection@, i as int + 1);
                    }
                    let tail = cat3("' does not match entity collection '", collection, "'");
                    return Err(
                        EngineError::InvalidQuery(
                            cat5(
                                "edge type '",
                                name,
                                "' from_collection '",
                                t.from_collection.as_str(),
                                tail.as_str(),
                            ),
                        ),
                    );
                }
                r.push(t.clone());
            },
        }
        i += 1;
    }
    assert(all.subrange(0, all.len() as int) =~= all);
    Ok(r)
}

/// An edge that is proposed. The score is the bits of a single.
#[derive(Debug)]
pub struct Proposal {
    pub edge_type: String,
    pub to_id: LogicalId,
    pub score: u32,
}

/// The model of a [`Proposal`].
pub struct ProposalView {
    pub edge_type: Seq<char>,
    pub to_id: Seq<char>,
    pub score: u32,
}

impl View for Proposal {
    type V = ProposalView;

    open spec fn view(&self) -> ProposalView {
        ProposalView { edge_type: self.edge_type@, to_id: self.to_id@, score: self.score }
    }
}

impl Clone for Proposal {
    fn clone(&self) -> (r: Self)
        ensures
            r == *self,
    {
        Proposal { edge_type: self.edge_type.clone(), to_id: self.to_id.clone(), score: self.score }
    }
}

/// The views of a sequence of proposals.
pub open spec fn proposal_views(s: Seq<Proposal>) -> Seq<ProposalView> {
    s.map_values(|p: Proposal| p@)
}

/// Whether some of the edges lead to a target.
pub open spec fn leads_to(es: Seq<EntryView>, to: Seq<char>) -> bool {
    exists|i: int| 0 <= i < es.len() && (#[trigger] es[i]).to_id == to
}

/// Whether some of the edges lead to a target.
pub fn leads(es: &Vec<AdjEntry>, to: &LogicalId) -> (b: bool)
    ensures
        b == leads_to(edge::entry_views(es@), to@),
{
    let ghost all = edge::entry_views(es@);
    let mut i: usize = 0;
    while i < es.len()
        invariant
            i <= es.len(),
            all == edge::entry_views(es@),
            forall|j: int| 0 <= j < i ==> (#[trigger] all[j]).to_id != to@,
        decreases es.len() - i,
    {
        assert(all[i as int] == es@[i as int]@);
        if ids_equal(&es[i].to_id, to) {
            return true;
        }
        i += 1;
    }
    false
}

/// The hits that may become edges of a type: not the source itself, and nothing that
/// such an edge already leads to.
pub open spec fn evaluated(hits: Seq<HitView>, source: Seq<char>, edge_type: Seq<char>, es: Seq<EntryView>) -> Seq<
    ProposalView,
>
    decreases hits.len(),
{
    if hits.len() == 0 {
        Seq::empty()
    } else {
        let before = evaluated(hits.drop_last(), source, edge_type, es);
        let h = hits.last();
        if h.id == source || leads_to(es, h.id) {
            before
        } else {
            before.push(ProposalView { edge_type, to_id: h.id, score: h.score })
        }
    }
}

/// The hits for each edge type that may become edges, those of one type after
/// another. A type without a vector index has none.
pub open spec fn all_evaluated(
    v: AdjView,
    source: Seq<char>,
    types: Seq<EdgeType>,
    hits: Seq<Option<Vec<Hit>>>,
) -> Seq<ProposalView>
    decreases types.len(),
{
    if types.len() == 0 {
        Seq::empty()
    } else {
        let before = all_evaluated(v, source, types.drop_last(), hits);
        let t = types.last();
        match hits[types.len() - 1] {
            None => before,
            Some(hs) => before + evaluated(
                search::hit_views(hs@),
                source,
                t.name@,
                edge::list_at(v.forward, (source, t.name@)),
            ),
        }
    }
}

/// The proposals whose score is not below the floor.
pub open spec fn not_below(ps: Seq<ProposalView>, floor: u32) -> Seq<ProposalView>
    decreases ps.len(),
{
    if ps.len() == 0 {
        Seq::empty()
    } else {
        let before = not_below(ps.drop_last(), floor);
        if float_bits::f32_lt(ps.last().score, floor) {
            before
        } else {
            before.push(ps.last())
        }
    }
}

fn evaluate(
    hits: &Vec<Hit>,
    source: &LogicalId,
    edge_type: &str,
    es: &Vec<AdjEntry>,
    r: &mut Vec<Proposal>,
)
    ensures
        proposal_views(final(r)@) == proposal_views(old(r)@) + evaluated(
            search::hit_views(hits@),
            source@,
            edge_type@,
            edge::entry_views(es@),
        ),
{
    let ghost before = proposal_views(r@);
    let ghost all = search::hit_views(hits@);
    let ghost evs = edge::entry_views(es@);
    let mut i: usize = 0;
    proof {
        assert(before + evaluated(all.subrange(0, 0), source@, edge_type@, evs) =~= before);
    }
    while i < hits.len()
        invariant
            i <= hits.len(),
            all == search::hit_views(hits@),
            evs == edge::entry_views(es@),
            proposal_views(r@) == before + evaluated(all.subrange(0, i as int), source@, edge_type@, evs),
        decreases hits.len() - i,
    {
        let ghost prev = proposal_views(r@);
        let ghost done = evaluated(all.subrange(0, i as int), source@, edge_type@, evs);
        proof {
            let next = all.subrange(0, i as int + 1);
            assert(next.drop_last() =~= all.subrange(0, i as int));
            assert(next.last() == hits@[i as int]@);
        }
        if !ids_equal(&hits[i].id, source) && !leads(es, &hits[i].id) {
            let p = Proposal { edge_type: own(edge_type), to_id: hits[i].id.clone(), score: hits[i].score };
            r.push(p);
            proof {
                assert(proposal_views(r@) =~= prev.push(p@));
                assert(before + done.push(p@) =~= prev.push(p@));
            }
        }
        i += 1;
    }
    assert(all.subrange(0, all.len() as int) =~= all);
}

fn evaluate_all(
    adjacency: &AdjacencyIndex,
    source: &LogicalId,
    types: &Vec<EdgeType>,
    hits: &Vec<Option<Vec<Hit>>>,
) -> (r: Vec<Proposal>)
    requires
        hits.len() == types.len(),
    ensures
        proposal_views(r@) == all_evaluated(adjacency@, source@, types@, hits@),
{
    let mut r: Vec<Proposal> = Vec::new();
    let ghost all = types@;
    let mut i: usize = 0;
    proof {
        assert(proposal_views(r@) =~= all_evaluated(adjacency@, source@, all.subrange(0, 0), hits@));
    }
    while i < types.len()
        invariant
            i <= types.len(),
            hits.len() == types.len(),
            all == types@,
            proposal_views(r@) == all_evaluated(adjacency@, source@, all.subrange(0, i as int), hits@),
        decreases types.len() - i,
    {
        proof {
            let next = all.subrange(0, i as int + 1);
            assert(next.drop_last() =~= all.subrange(0, i as int));
            assert(next.last() == all[i as int]);
        }
        if let Some(hs) = &hits[i] {
            let name = types[i].name.as_str();
            let es = adjacency.get(source, name);
            evaluate(hs, source, name, &es, &mut r);
        }
        i += 1;
    }
    assert(all.subrange(0, all.len() as int) =~= all);
    r
}

fn keep_not_below(ps: &Vec<Proposal>, floor: u32) -> (r: Vec<Proposal>)
    ensures
        proposal_views(r@) == not_below(proposal_views(ps@), floor),
{
    let mut r: Vec<Proposal> = Vec::new();
    let ghost all = proposal_views(ps@);
    let mut i: usize = 0;
    proof {
        assert(proposal_views(r@) =~= not_below(all.subrange(0, 0), floor));
    }
    while i < ps.len()
        invariant
            i <= ps.len(),
            all == proposal_views(ps@),
            proposal_views(r@) == not_below(all.subrange(0, i as int), floor),
        decreases ps.len() - i,
    {
        let ghost before = proposal_views(r@);
        proof {
            let next = all.subrange(0, i as int + 1);
            assert(next.drop_last() =~= all.subrange(0, i as int));
            assert(next.last() == ps@[i as int]@);
        }
        if !single_less(ps[i].score, floor) {
            r.push(ps[i].clone());
            proof {
                assert(proposal_views(r@) =~= before.push(ps@[i as int]@));
            }
        }
        i += 1;
    }
    assert(all.subrange(0, all.len() as int) =~= all);
    r
}

struct BestFirst;

impl Comparator<Proposal> for BestFirst {
    closed spec fn rank(&self, a: Proposal, b: Proposal) -> Rank {
        score::score_rank(a.score, b.score)
    }

    fn compare(&self, a: &Proposal, b: &Proposal) -> (r: Rank) {
        rank_scores(a.score, b.score)
    }
}

/// The order of proposals: the greater score first.
pub open spec fn best_first() -> spec_fn(ProposalView, ProposalView) -> Rank {
    |a: ProposalView, b: ProposalView| score::score_rank(a.score, b.score)
}

/// Whether `chosen` is the best of some proposals, at most `limit` of them.
pub open spec fn best_of(all: Seq<ProposalView>, chosen: Seq<ProposalView>, limit: usize) -> bool {
    exists|s: Seq<ProposalView>| #[trigger]
        sort::stably_sorted(all, s, best_first()) && chosen == rows::limited(s, Some(limit))
}

fn choose_best(mut ps: Vec<Proposal>, limit: usize) -> (r: Vec<Proposal>)
    ensures
        best_of(proposal_views(ps@), proposal_views(r@), limit),
{
    let ghost before = ps@;
    stable_sort(&mut ps, &BestFirst);
    let ghost sorted = ps@;
    proof {
        let f = |a: Proposal, b: Proposal| BestFirst.rank(a, b);
        let view = |p: Proposal| p@;
        assert forall|a: Proposal, b: Proposal| #[trigger] f(a, b) == best_first()(view(a), view(b)) by {}
        sort::lemma_sorted_views(before, sorted, f, view, best_first());
    }
    ps.truncate(limit);
    proof {
        assert(proposal_views(ps@) =~= rows::limited(proposal_views(sorted), Some(limit)));
    }
    ps
}

/// The row of a proposal.
pub open spec fn proposal_row(from_id: Seq<char>, p: ProposalView) -> RowView {
    RowView {
        values: Map::empty().insert("from_id"@, Val::Str(from_id)).insert("to_id"@, Val::Str(p.to_id)).insert(
            "edge_type"@,
            Val::Str(p.edge_type),
        ).insert("confidence"@, Val::Float(float_bits::f32_to_f64(p.score))),
        score: Some(p.score),
    }
}

fn build_proposal_row(from_id: &str, p: &Proposal) -> (r: Row)
    ensures
        r@ == proposal_row(from_id@, p@),
{
    let mut values = FieldMap::new();
    values.insert(own("from_id"), Value::String(own(from_id)));
    values.insert(own("to_id"), id_value(&p.to_id));
    values.insert(own("edge_type"), Value::String(p.edge_type.clone()));
    values.insert(own("confidence"), Value::Float(double_of_single(p.score)));
    Row { values, score: Some(p.score) }
}

/// The columns of INFER EDGES.
pub open spec fn infer_columns() -> Seq<Seq<char>> {
    seq!["from_id"@, "to_id"@, "edge_type"@, "confidence"@]
}

/// Whether a result answers an INFER EDGES with some proposals, in order.
pub open spec fn proposes(r: QueryResult, from_id: Seq<char>, ps: Seq<ProposalView>) -> bool {
    &&& text::views(r.columns@) == infer_columns()
    &&& rows::row_views(r.rows@) == ps.map_values(|p: ProposalView| proposal_row(from_id, p))
    &&& r.entities_scanned == ps.len()
    &&& r.mode == QueryMode::Probabilistic
    &&& r.tier@ == "Ram"@
}

fn proposals_result(from_id: &str, ps: &Vec<Proposal>) -> (r: QueryResult)
    ensures
        proposes(r, from_id@, proposal_views(ps@)),
{
    let ghost want = proposal_views(ps@).map_values(|p: ProposalView| proposal_row(from_id@, p));
    let mut rows: Vec<Row> = Vec::new();
    let mut i: usize = 0;
    while i < ps.len()
        invariant
            i <= ps.len(),
            rows@.len() == i,
            forall|j: int| 0 <= j < i ==> (#[trigger] rows@[j])@ == proposal_row(from_id@, ps@[j]@),
        decreases ps.len() - i,
    {
        rows.push(build_proposal_row(from_id, &ps[i]));
        i += 1;
    }
    assert(rows::row_views(rows@) =~= want);
    let mut columns: Vec<String> = Vec::new();
    columns.push(own("from_id"));
    columns.push(own("to_id"));
    columns.push(own("edge_type"));
    columns.push(own("confidence"));
    assert(text::views(columns@) =~= infer_columns());
    QueryResult {
        columns,
        rows,
        entities_scanned: ps.len(),
        mode: QueryMode::Probabilistic,
        tier: own("Ram"),
    }
}

/// The candidates of an audit entry: the proposals, all accepted.
pub open spec fn accepted_all(cs: Seq<InferenceCandidate>, ps: Seq<ProposalView>) -> bool {
    &&& cs.len() == ps.len()
    &&& forall|i: int|
        0 <= i < cs.len() ==> (#[trigger] cs[i]).entity_id@ == ps[i].to_id && cs[i].similarity_score == ps[i].score
            && cs[i].accepted
}

/// Whether an INFER EDGES along some edge types is recorded, with how many hits it
/// looked at, how many were not below its floor, and what it proposes.
pub open spec fn audits(
    entry: Option<InferenceAuditEntry>,
    p: InferPlan,
    along_some: bool,
    seen: Seq<ProposalView>,
    ps: Seq<ProposalView>,
    now_millis: u64,
) -> bool {
    match entry {
        None => !along_some,
        Some(e) => {
            &&& along_some
            &&& e.timestamp == now_millis
            &&& e.source_entity@ == p.from_id@
            &&& e.edge_type@ == "all"@
            &&& e.candidates_evaluated == seen.len()
            &&& e.candidates_above_threshold == not_below(seen, proposal_floor(p)).len()
            &&& accepted_all(e.top_candidates@, ps)
            &&& e.trigger == InferenceTrigger::Explicit
        },
    }
}

/// What an INFER EDGES answers, with the entry that records it. `types` are the edge
/// types along which it infers and `hits`, for each of them, what the vector index of
/// its target collection found, where there is such an index.
pub fn infer_answer(
    p: &InferPlan,
    types: &Vec<EdgeType>,
    hits: &Vec<Option<Vec<Hit>>>,
    adjacency: &AdjacencyIndex,
    now_millis: u64,
) -> (r: (QueryResult, Option<InferenceAuditEntry>))
    requires
        hits.len() == types.len(),
    ensures
        exists|ps: Seq<ProposalView>| #[trigger]
            best_of(
                not_below(all_evaluated(adjacency@, p.from_id@, types@, hits@), proposal_floor(*p)),
                ps,
                proposal_limit(*p),
            ) && proposes(r.0, p.from_id@, ps) && audits(
                r.1,
                *p,
                types@.len() > 0,
                all_evaluated(adjacency@, p.from_id@, types@, hits@),
                ps,
                now_millis,
            ),
{
    let source = LogicalId::from_string(p.from_id.as_str());
    let limit = match p.limit {
        Some(n) => n,
        None => DEFAULT_INFER_LIMIT,
    };
    let floor = match p.confidence_floor {
        Some(c) => c,
        None => 0,
    };
    let seen = evaluate_all(adjacency, &source, types, hits);
    let above = keep_not_below(&seen, floor);
    let seen_count = seen.len();
    let above_count = above.len();
    let ghost sv = all_evaluated(adjacency@, p.from_id@, types@, hits@);
    let ghost av = not_below(sv, proposal_floor(*p));
    proof {
        assert(proposal_views(seen@).len() == seen_count);
        assert(proposal_views(above@).len() == above_count);
    }
    let best = choose_best(above, limit);
    let ghost ps = proposal_views(best@);
    let answer = proposals_result(p.from_id.as_str(), &best);
    if types.len() == 0 {
        assert(best_of(av, ps, proposal_limit(*p)) && audits(None, *p, false, sv, ps, now_millis));
        return (answer, None);
    }
    let mut top: Vec<InferenceCandidate> = Vec::new();
    let mut i: usize = 0;
    while i < best.len()
        invariant
            i <= best.len(),
            top@.len() == i,
            ps == proposal_views(best@),
            forall|j: int|
                0 <= j < i ==> (#[trigger] top@[j]).entity_id@ == ps[j].to_id && top@[j].similarity_score
                    == ps[j].score && top@[j].accepted,
        decreases best.len() - i,
    {
        assert(ps[i as int] == best@[i as int]@);
        top.push(
            InferenceCandidate {
                entity_id: best[i].to_id.clone(),
                similarity_score: best[i].score,
                accepted: true,
            },
        );
        i += 1;
    }
    let entry = InferenceAuditEntry {
        timestamp: now_millis,
        source_entity: source,
        edge_type: own("all"),
        candidates_evaluated: seen_count,
        candidates_above_threshold: above_count,
        top_candidates: top,
        trigger: InferenceTrigger::Explicit,
    };
    assert(best_of(av, ps, proposal_limit(*p)) && audits(Some(entry), *p, true, sv, ps, now_millis));
    (answer, Some(entry))
}

} // verus!
