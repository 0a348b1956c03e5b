//! CONFIRM EDGE: making an inferred edge permanent.

use vstd::prelude::*;
use vstd::string::*;

use crate::edge;
use crate::edge::{AdjView, AdjacencyIndex, Edge, EdgeSource, EdgeView};
use crate::error::{EngineError, ErrorView};
use crate::fields::FieldMap;
use crate::graph;
use crate::graph::index_edge;
use crate::replay::RecordType;
use crate::result;
use crate::result::{message_result, QueryResult};
use crate::text::{cat3, cat5};
use crate::value::LogicalId;

verus! {

/// A planned CONFIRM EDGE. The confidence is the bits of a single; `confidence_shown`
/// is how it is written out, with two decimals.
#[derive(Debug)]
pub struct ConfirmPlan {
    pub edge_type: String,
    pub from_id: String,
    pub to_id: String,
    pub confidence: u32,
    pub confidence_shown: String,
}

/// The edge of the plan between its entities, in words.
pub open spec fn named(p: ConfirmPlan) -> Seq<char> {
    p.from_id@ + " -> "@ + p.to_id@
}

/// The edge after a CONFIRM EDGE. An edge that was given is not confirmed; one that
/// was inferred keeps its fields; one that was confirmed keeps its fields and age.
pub open spec fn confirmed(p: ConfirmPlan, existing: Option<EdgeView>, now: u64) -> Result<EdgeView, ErrorView> {
    let fresh = EdgeView {
        from_id: p.from_id@,
        to_id: p.to_id@,
        edge_type: p.edge_type@,
        confidence: p.confidence,
        metadata: Map::empty(),
        created_at: now,
        source: EdgeSource::Confirmed,
    };
    match existing {
        None => Ok(fresh),
        Some(e) => match e.source {
            EdgeSource::StructuralEdge => Err(
                ErrorView::InvalidQuery(
                    "cannot CONFIRM structural edge '"@ + p.edge_type@ + "' "@ + named(p)
                        + " (already permanent at confidence 1.0)"@,
                ),
            ),
            EdgeSource::Inferred => Ok(EdgeView { metadata: e.metadata, ..fresh }),
            EdgeSource::Confirmed => Ok(EdgeView { metadata: e.metadata, created_at: e.created_at, ..fresh }),
        },
    }
}

/// What a CONFIRM EDGE says that it did.
pub open spec fn confirm_message(p: ConfirmPlan, existing: Option<EdgeView>) -> Seq<char> {
    match existing {
        None => "Edge '"@ + p.edge_type@ + "' confirmed: "@ + named(p) + (" (new Confirmed edge at "@
            + p.confidence_shown@ + ")"@),
        Some(e) => if e.source == EdgeSource::Inferred {
            "Edge '"@ + p.edge_type@ + "' confirmed: "@ + named(p) + (" (was Inferred, now Confirmed at "@
                + p.confidence_shown@ + ")"@)
        } else {
            "Edge '"@ + p.edge_type@ + "' re-confirmed: "@ + named(p) + (" (confidence updated to "@
                + p.confidence_shown@ + ")"@)
        },
    }
}

/// What a CONFIRM EDGE does: the edge to write, how the log records it, whether it
/// takes the place of another, and what is reported.
#[derive(Debug)]
pub struct Confirmation {
    pub edge: Edge,
    pub record: RecordType,
    pub replaces: bool,
    pub report: QueryResult,
}

/// The model of an edge that may be stored.
pub open spec fn opt_edge(e: Option<&Edge>) -> Option<EdgeView> {
    match e {
        Some(x) => Some(x@),
        None => None,
    }
}

/// What a CONFIRM EDGE does, given the edge as it is stored.
pub fn confirm(p: &ConfirmPlan, existing: Option<&Edge>, now_millis: u64) -> (r: Result<Confirmation, EngineError>)
    ensures
        match r {
            Ok(c) => {
                &&& confirmed(*p, opt_edge(existing), now_millis) == Ok::<EdgeView, ErrorView>(c.edge@)
                &&& c.record == (if existing is Some && existing->0.source == EdgeSource::Confirmed {
                    RecordType::EdgeConfidenceUpdate
                } else {
                    RecordType::EdgeConfirm
                })
                &&& c.replaces == existing is Some
                &&& result::is_message(c.report, "result"@, confirm_message(*p, opt_edge(existing)), "Fjall"@)
            },
            Err(e) => confirmed(*p, opt_edge(existing), now_millis) == Err::<EdgeView, ErrorView>(e@),
        },
{
    let names = cat3(p.from_id.as_str(), " -> ", p.to_id.as_str());
    let (metadata, created_at, record, verb, note) = match existing {
        None => (FieldMap::new(), now_millis, RecordType::EdgeConfirm, "' confirmed: ", " (new Confirmed edge at "),
        Some(e) => match e.source {
            EdgeSource::StructuralEdge => {
                return Err(
                    EngineError::InvalidQuery(
                        cat5(
                            "cannot CONFIRM structural edge '",
                            p.edge_type.as_str(),
                            "' ",
                            names.as_str(),
                            " (already permanent at confidence 1.0)",
                        ),
                    ),
                );
            },
            EdgeSource::Inferred => (
                e.metadata.clone(),
                now_millis,
                RecordType::EdgeConfirm,
                "' confirmed: ",
                " (was Inferred, now Confirmed at ",
            ),
            EdgeSource::Confirmed => (
                e.metadata.clone(),
                e.created_at,
                RecordType::EdgeConfidenceUpdate,
                "' re-confirmed: ",
                " (confidence updated to ",
            ),
        },
    };
    let edge = Edge {
        from_id: LogicalId::from_string(p.from_id.as_str()),
        to_id: LogicalId::from_string(p.to_id.as_str()),
        edge_type: p.edge_type.clone(),
        confidence: p.confidence,
        metadata,
        created_at,
        source: EdgeSource::Confirmed,
    };
    let tail = cat3(note, p.confidence_shown.as_str(), ")");
    let message = cat5("Edge '", p.edge_type.as_str(), verb, names.as_str(), tail.as_str());
    let report = message_result("result", message, "Fjall");
    Ok(Confirmation { edge, record, replaces: existing.is_some(), report })
}

/// The index after a CONFIRM EDGE.
pub open spec fn reindexed(v: AdjView, e: EdgeView, replaces: bool) -> AdjView {
    if replaces {
        graph::with_edge(v.removed(e.from_id, e.edge_type, e.to_id), e)
    } else {
        graph::with_edge(v, e)
    }
}

/// Brings a confirmed edge into the index, in place of the one that it replaces.
pub fn reindex(adjacency: &mut AdjacencyIndex, c: &Confirmation)
    ensures
        final(adjacency)@ == reindexed(old(adjacency)@, c.edge@, c.replaces),
        old(adjacency)@.consistent() ==> final(adjacency)@.consistent(),
{
    if c.replaces {
        adjacency.remove(&c.edge.from_id, c.edge.edge_type.as_str(), &c.edge.to_id);
    }
    index_edge(adjacency, &c.edge);
}

/// After a CONFIRM EDGE the index holds the edge exactly once, where it did not hold an
/// edge that was not stored; all other edges are as many as before.
pub proof fn lemma_confirmed_once(v: AdjView, e: EdgeView, replaces: bool, f: Seq<char>, t: Seq<char>, x: Seq<char>)
    requires
        replaces || v.edge_count(e.from_id, e.edge_type, e.to_id) == 0,
    ensures
        reindexed(v, e, replaces).edge_count(f, t, x) == (if f == e.from_id && t == e.edge_type && x == e.to_id {
            1
        } else {
            v.edge_count(f, t, x)
        }),
{
    let entry = edge::EntryView {
        to_id: e.to_id,
        confidence: e.confidence,
        created_at: e.created_at,
        source: e.source,
    };
    if replaces {
        edge::lemma_removed_edges(v, e.from_id, e.edge_type, e.to_id, f, t, x);
        edge::lemma_inserted_edges(
            v.removed(e.from_id, e.edge_type, e.to_id),
            e.from_id,
            e.edge_type,
            entry,
            f,
            t,
            x,
        );
    } else {
        edge::lemma_inserted_edges(v, e.from_id, e.edge_type, entry, f, t, x);
    }
}

/// Confirming again with the same confidence changes nothing, however late.
pub proof fn lemma_confirm_idempotent(p: ConfirmPlan, existing: Option<EdgeView>, now: u64, later: u64)
    requires
        confirmed(p, existing, now) is Ok,
    ensures
        confirmed(p, Some(confirmed(p, existing, now)->Ok_0), later) == confirmed(p, existing, now),
{
}

/// A CONFIRM EDGE fails only on an edge that was given, and never loses a field.
pub proof fn lemma_confirm_keeps_fields(p: ConfirmPlan, e: EdgeView, now: u64)
    ensures
        confirmed(p, Some(e), now) is Err <==> e.source == EdgeSource::StructuralEdge,
        confirmed(p, Some(e), now) matches Ok(c) ==> c.metadata == e.metadata && c.source == EdgeSource::Confirmed,
{
}

} // verus!
