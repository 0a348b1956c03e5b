//! The statements on edge types and edges.

use vstd::prelude::*;
use vstd::string::*;

use crate::edge;
use crate::edge::{AdjView, AdjacencyIndex, DecayConfig, Edge, EdgeSource, EdgeType, EdgeView, EntryView, InferenceConfig};
use crate::error::{EngineError, ErrorView};
use crate::fields::FieldMap;
use crate::float_bits::F32_ONE;
use crate::result;
use crate::result::{message_result, QueryMode, QueryResult};
use crate::rows;
use crate::rows::{Row, RowView};
use crate::text;
use crate::text::{cat3, cat5, own};
use crate::update;
use crate::value::{literal_to_value, Literal, LogicalId, Val, Value};

verus! {

/// A planned CREATE EDGE.
#[derive(Debug)]
pub struct CreateEdgeTypePlan {
    pub name: String,
    pub from_collection: String,
    pub to_collection: String,
    pub decay_config: Option<DecayConfig>,
    pub inference_config: Option<InferenceConfig>,
}

/// A planned INSERT EDGE.
#[derive(Debug)]
pub struct InsertEdgePlan {
    pub edge_type: String,
    pub from_id: String,
    pub to_id: String,
    pub metadata: Vec<(String, Literal)>,
}

/// A planned DELETE EDGE.
#[derive(Debug)]
pub struct DeleteEdgePlan {
    pub edge_type: String,
    pub from_id: String,
    pub to_id: String,
}

/// The edge type that a CREATE EDGE declares, given whether its two collections are
/// known; the first that is not is the error.
pub fn create_edge_type(p: &CreateEdgeTypePlan, from_known: bool, to_known: bool) -> (r: Result<
    EdgeType,
    EngineError,
>)
    ensures
        match r {
            Ok(t) => {
                &&& from_known && to_known
                &&& t.name == p.name
                &&& t.from_collection == p.from_collection
                &&& t.to_collection == p.to_collection
                &&& match p.decay_config {
                    Some(c) => t.decay_config == c,
                    None => t.decay_config.decay_fn is None && t.decay_config.decay_rate is None
                        && t.decay_config.floor is None && t.decay_config.promote_threshold is None
                        && t.decay_config.prune_threshold is None,
                }
                &&& match p.inference_config {
                    Some(c) => t.inference_config == c,
                    None => !t.inference_config.auto && t.inference_config.confidence_floor
                        == crate::float_bits::F32_HALF && t.inference_config.limit == 10,
                }
            },
            Err(e) => if !from_known {
                e@ == ErrorView::CollectionNotFound(p.from_collection@)
            } else {
                !to_known && e@ == ErrorView::CollectionNotFound(p.to_collection@)
            },
        },
{
    if !from_known {
        return Err(EngineError::CollectionNotFound(p.from_collection.clone()));
    }
    if !to_known {
        return Err(EngineError::CollectionNotFound(p.to_collection.clone()));
    }
    let decay_config = match p.decay_config {
        Some(c) => c,
        None => DecayConfig::default(),
    };
    let inference_config = match p.inference_config {
        Some(c) => c,
        None => InferenceConfig::default(),
    };
    Ok(
        EdgeType {
            name: p.name.clone(),
            from_collection: p.from_collection.clone(),
            to_collection: p.to_collection.clone(),
            decay_config,
            inference_config,
        },
    )
}

/// What a CREATE EDGE reports.
pub fn created_edge_type(p: &CreateEdgeTypePlan) -> (r: QueryResult)
    ensures
        result::is_message(
            r,
            "result"@,
            "Edge type '"@ + p.name@ + "' created ("@ + p.from_collection@ + (" -> "@ + p.to_collection@ + ")"@),
            "Fjall"@,
        ),
{
    let tail = cat3(" -> ", p.to_collection.as_str(), ")");
    message_result(
        "result",
        cat5("Edge type '", p.name.as_str(), "' created (", p.from_collection.as_str(), tail.as_str()),
        "Fjall",
    )
}

/// What a DROP EDGE answers: an error where the edge type is not known.
pub fn dropped_edge_type(name: &str, known: bool) -> (r: Result<QueryResult, EngineError>)
    ensures
        match r {
            Ok(q) => known && result::is_message(q, "result"@, "Edge type '"@ + name@ + "' dropped"@, "Fjall"@),
            Err(e) => !known && e@ == ErrorView::EdgeTypeNotFound(name@),
        },
{
    if !known {
        return Err(EngineError::EdgeTypeNotFound(own(name)));
    }
    Ok(message_result("result", cat3("Edge type '", name, "' dropped"), "Fjall"))
}

/// The edge that an INSERT EDGE gives: certain, and made now.
pub open spec fn edge_given(p: InsertEdgePlan, now: u64) -> EdgeView {
    EdgeView {
        from_id: p.from_id@,
        to_id: p.to_id@,
        edge_type: p.edge_type@,
        confidence: F32_ONE,
        metadata: update::assigned(Map::empty(), p.metadata@),
        created_at: now,
        source: EdgeSource::StructuralEdge,
    }
}

/// The edge that an INSERT EDGE gives.
pub fn build_edge(p: &InsertEdgePlan, now_millis: u64) -> (e: Edge)
    ensures
        e@ == edge_given(*p, now_millis),
{
    let mut metadata = FieldMap::new();
    let ghost all = p.metadata@;
    let mut i: usize = 0;
    while i < p.metadata.len()
        invariant
            i <= p.metadata.len(),
            all == p.metadata@,
            metadata@ == update::assigned(Map::empty(), all.subrange(0, i as int)),
        decreases p.metadata.len() - i,
    {
        proof {
            let next = all.subrange(0, i as int + 1);
            assert(next.drop_last() =~= all.subrange(0, i as int));
            assert(next.last() == all[i as int]);
        }
        metadata.insert(p.metadata[i].0.clone(), literal_to_value(&p.metadata[i].1));
        i += 1;
    }
    assert(all.subrange(0, all.len() as int) =~= all);
    Edge {
        from_id: LogicalId::from_string(p.from_id.as_str()),
        to_id: LogicalId::from_string(p.to_id.as_str()),
        edge_type: p.edge_type.clone(),
        confidence: F32_ONE,
        metadata,
        created_at: now_millis,
        source: EdgeSource::StructuralEdge,
    }
}

/// The index with an edge.
pub open spec fn with_edge(v: AdjView, e: EdgeView) -> AdjView {
    v.inserted(
        e.from_id,
        e.edge_type,
        EntryView { to_id: e.to_id, confidence: e.confidence, created_at: e.created_at, source: e.source },
    )
}

/// Adds an edge to the index.
pub fn index_edge(adjacency: &mut AdjacencyIndex, e: &Edge)
    ensures
        final(adjacency)@ == with_edge(old(adjacency)@, e@),
        old(adjacency)@.consistent() ==> final(adjacency)@.consistent(),
{
    adjacency.insert(&e.from_id, e.edge_type.as_str(), &e.to_id, e.confidence, e.created_at, e.source);
}

/// The index with edges, one after the other.
pub open spec fn with_edges(v: AdjView, es: Seq<Edge>) -> AdjView
    decreases es.len(),
{
    if es.len() == 0 {
        v
    } else {
        with_edge(with_edges(v, es.drop_last()), es.last()@)
    }
}

/// Adds the stored edges of a type to the index.
pub fn index_edges(adjacency: &mut AdjacencyIndex, es: &Vec<Edge>)
    ensures
        final(adjacency)@ == with_edges(old(adjacency)@, es@),
        old(adjacency)@.consistent() ==> final(adjacency)@.consistent(),
{
    let ghost start = adjacency@;
    let ghost all = es@;
    let mut i: usize = 0;
    while i < es.len()
        invariant
            i <= es.len(),
            all == es@,
            start == old(adjacency)@,
            adjacency@ == with_edges(start, all.subrange(0, i as int)),
            start.consistent() ==> adjacency@.consistent(),
        decreases es.len() - i,
    {
        proof {
            let next = all.subrange(0, i as int + 1);
            assert(next.drop_last() =~= all.subrange(0, i as int));
            assert(next.last() == all[i as int]);
        }
        index_edge(adjacency, &es[i]);
        i += 1;
    }
    assert(all.subrange(0, all.len() as int) =~= all);
}

/// What an INSERT EDGE reports.
pub fn inserted_edge(p: &InsertEdgePlan) -> (r: QueryResult)
    ensures
        result::is_message(
            r,
            "result"@,
            "Edge '"@ + p.edge_type@ + "' created: "@ + p.from_id@ + (" -> "@ + p.to_id@),
            "Fjall"@,
        ),
{
    let tail = text::cat2(" -> ", p.to_id.as_str());
    message_result(
        "result",
        cat5("Edge '", p.edge_type.as_str(), "' created: ", p.from_id.as_str(), tail.as_str()),
        "Fjall",
    )
}

/// What a DELETE EDGE reports.
pub fn deleted_edge(p: &DeleteEdgePlan) -> (r: QueryResult)
    ensures
        result::is_message(
            r,
            "result"@,
            "Edge '"@ + p.edge_type@ + "' deleted: "@ + p.from_id@ + (" -> "@ + p.to_id@),
            "Fjall"@,
        ),
{
    let tail = text::cat2(" -> ", p.to_id.as_str());
    message_result(
        "result",
        cat5("Edge '", p.edge_type.as_str(), "' deleted: ", p.from_id.as_str(), tail.as_str()),
        "Fjall",
    )
}

/// What the statements report that the routing layer carries out.
pub fn acknowledged() -> (r: QueryResult)
    ensures
        result::is_message(r, "status"@, "OK"@, "Routing"@),
{
    message_result("status", own("OK"), "Routing")
}

/// The row of a tier.
pub open spec fn tier_row(name: Seq<char>, count: usize) -> RowView {
    RowView {
        values: Map::empty().insert("tier"@, Val::Str(name)).insert("entity_count"@, Val::Int(count as i64)),
        score: None,
    }
}

fn build_tier_row(name: &str, count: usize) -> (r: Row)
    requires
        count <= i64::MAX,
    ensures
        r@ == tier_row(name@, count),
{
    let mut values = FieldMap::new();
    values.insert(own("tier"), Value::String(own(name)));
    values.insert(own("entity_count"), Value::Int(count as i64));
    Row { values, score: None }
}

/// What EXPLAIN TIERS answers, given how many entities each tier holds.
pub fn explain_tiers(hot: usize, warm: usize, archive: usize) -> (r: QueryResult)
    requires
        hot <= i64::MAX,
        warm <= i64::MAX,
        archive <= i64::MAX,
    ensures
        text::views(r.columns@) == seq!["tier"@, "entity_count"@],
        rows::row_views(r.rows@) == seq![
            tier_row("Hot"@, hot),
            tier_row("Warm"@, warm),
            tier_row("Archive"@, archive),
        ],
        r.entities_scanned == 0,
        r.mode == QueryMode::Deterministic,
        r.tier@ == "Fjall"@,
{
    let mut columns: Vec<String> = Vec::new();
    columns.push(own("tier"));
    columns.push(own("entity_count"));
    let mut rows: Vec<Row> = Vec::new();
    rows.push(build_tier_row("Hot", hot));
    rows.push(build_tier_row("Warm", warm));
    rows.push(build_tier_row("Archive", archive));
    assert(text::views(columns@) =~= seq!["tier"@, "entity_count"@]);
    assert(rows::row_views(rows@) =~= seq![
        tier_row("Hot"@, hot),
        tier_row("Warm"@, warm),
        tier_row("Archive"@, archive),
    ]);
    QueryResult { columns, rows, entities_scanned: 0, mode: QueryMode::Deterministic, tier: own("Fjall") }
}

/// An edge that is added stands last among those of its type from its source, and its
/// source last among those of its type to its target.
pub proof fn lemma_edge_is_found(v: AdjView, e: EdgeView)
    ensures
        edge::list_at(with_edge(v, e).forward, (e.from_id, e.edge_type)) == edge::list_at(
            v.forward,
            (e.from_id, e.edge_type),
        ).push(EntryView { to_id: e.to_id, confidence: e.confidence, created_at: e.created_at, source: e.source }),
        edge::list_at(with_edge(v, e).backward, (e.to_id, e.edge_type)) == edge::list_at(
            v.backward,
            (e.to_id, e.edge_type),
        ).push(e.from_id),
{
}

/// How many of the edges are of a type and lead from one entity to another.
pub open spec fn edges_between(es: Seq<Edge>, from: Seq<char>, edge_type: Seq<char>, to: Seq<char>) -> nat
    decreases es.len(),
{
    if es.len() == 0 {
        0
    } else {
        edges_between(es.drop_last(), from, edge_type, to) + if es.last().from_id@ == from && es.last().edge_type@
            == edge_type && es.last().to_id@ == to {
            1nat
        } else {
            0nat
        }
    }
}

/// An index that is filled from the stored edges holds exactly those.
pub proof fn lemma_index_rebuilt(v: AdjView, es: Seq<Edge>, f: Seq<char>, t: Seq<char>, x: Seq<char>)
    ensures
        with_edges(v, es).edge_count(f, t, x) == v.edge_count(f, t, x) + edges_between(es, f, t, x),
    decreases es.len(),
{
    if es.len() > 0 {
        lemma_index_rebuilt(v, es.drop_last(), f, t, x);
        let e = es.last()@;
        edge::lemma_inserted_edges(
            with_edges(v, es.drop_last()),
            e.from_id,
            e.edge_type,
            EntryView { to_id: e.to_id, confidence: e.confidence, created_at: e.created_at, source: e.source },
            f,
            t,
            x,
        );
    }
}

} // verus!
