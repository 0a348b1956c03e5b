//! INFER, CONFIRM EDGE and the background tasks.

use trondb::background::{
    edges_to_infer, find_collection_for_entity, inferred_edge, is_pruned, is_recomputable, is_recomputed, recomputed,
    types_to_infer, types_to_sweep,
};
use trondb::confirm::{confirm, reindex, ConfirmPlan};
use trondb::edge::{AdjacencyIndex, DecayConfig, EdgeSource, EdgeType, InferenceConfig};
use trondb::error::EngineError;
use trondb::graph::{
    acknowledged, build_edge, create_edge_type, created_edge_type, deleted_edge, dropped_edge_type, explain_tiers,
    index_edge, index_edges, inserted_edge, CreateEdgeTypePlan, DeleteEdgePlan, InsertEdgePlan,
};
use trondb::infer::{
    find_type, infer_answer, infer_collection, infer_fetch_k, infer_vector, inferable_types, InferPlan,
};
use trondb::inference::InferenceTrigger;
use trondb::replay::RecordType;
use trondb::result::QueryResult;
use trondb::search::Hit;
use trondb::types::{
    CollectionSchema, Entity, Metric, ReprState, ReprType, Representation, StoredRepresentation, VectorData,
};
use trondb::value::{Literal, LogicalId, Value};

fn id(s: &str) -> LogicalId {
    LogicalId::from_string(s)
}

fn text(s: &str) -> Value {
    Value::String(s.to_string())
}

fn hit(s: &str, score: f32) -> Hit {
    Hit { id: id(s), score: score.to_bits() }
}

fn edge_type(name: &str, from: &str, auto: bool) -> EdgeType {
    EdgeType {
        name: name.into(),
        from_collection: from.into(),
        to_collection: "venues".into(),
        decay_config: DecayConfig {
            decay_fn: None,
            decay_rate: None,
            floor: None,
            promote_threshold: None,
            prune_threshold: None,
        },
        inference_config: InferenceConfig { auto, confidence_floor: 0.5f32.to_bits(), limit: 2 },
    }
}

fn infer_plan(edge_types: &[&str]) -> InferPlan {
    InferPlan {
        from_id: "p1".into(),
        edge_types: edge_types.iter().map(|s| s.to_string()).collect(),
        limit: None,
        confidence_floor: None,
    }
}

fn message(r: &QueryResult) -> Value {
    r.rows[0].values.get("result").unwrap().clone()
}

fn invalid<T: std::fmt::Debug>(r: Result<T, EngineError>) -> String {
    match r {
        Err(EngineError::InvalidQuery(m)) => m,
        other => panic!("{other:?}"),
    }
}

fn targets(r: &QueryResult) -> Vec<Value> {
    r.rows.iter().map(|row| row.values.get("to_id").unwrap().clone()).collect()
}

#[test]
fn proposals_are_sorted_by_similarity() {
    let types = vec![edge_type("likes", "people", false)];
    let hits = vec![Some(vec![hit("v1", 0.2), hit("v2", 0.9), hit("p1", 1.0), hit("v3", 0.5)])];
    let mut adj = AdjacencyIndex::new();
    adj.insert(&id("p1"), "likes", &id("v3"), 0, 0, EdgeSource::Inferred);
    let (r, audit) = infer_answer(&infer_plan(&[]), &types, &hits, &adj, 77);
    assert_eq!(targets(&r), vec![text("v2"), text("v1")]);
    assert_eq!(r.columns, vec!["from_id", "to_id", "edge_type", "confidence"]);
    assert_eq!(r.rows[0].values.get("edge_type"), Some(&text("likes")));
    let entry = audit.unwrap();
    assert_eq!(entry.timestamp, 77);
    assert_eq!(entry.edge_type, "all");
    assert_eq!(entry.candidates_evaluated, 2);
    assert_eq!(entry.candidates_above_threshold, 2);
    assert_eq!(entry.top_candidates.len(), 2);
    assert_eq!(entry.trigger, InferenceTrigger::Explicit);
}

#[test]
fn proposals_respect_floor_and_limit() {
    let types = vec![edge_type("likes", "people", false)];
    let hits = vec![Some(vec![hit("v1", 0.2), hit("v2", 0.9), hit("v3", 0.8)])];
    let adj = AdjacencyIndex::new();
    let mut p = infer_plan(&[]);
    p.confidence_floor = Some(0.5f32.to_bits());
    let (r, audit) = infer_answer(&p, &types, &hits, &adj, 0);
    assert_eq!(targets(&r), vec![text("v2"), text("v3")]);
    assert_eq!(audit.unwrap().candidates_above_threshold, 2);
    p.limit = Some(1);
    assert_eq!(targets(&infer_answer(&p, &types, &hits, &adj, 0).0), vec![text("v2")]);
    let (none, no_audit) = infer_answer(&p, &vec![], &vec![], &adj, 0);
    assert!(none.rows.is_empty());
    assert!(no_audit.is_none());
}

#[test]
fn inference_checks_its_types() {
    let types = vec![edge_type("likes", "people", false), edge_type("near", "venues", false)];
    let all: Vec<String> =
        inferable_types(&infer_plan(&[]), &types, "people").unwrap().into_iter().map(|t| t.name).collect();
    assert_eq!(all, vec!["likes"]);
    assert_eq!(invalid(inferable_types(&infer_plan(&["x"]), &types, "people")), "edge type 'x' not found");
    assert_eq!(
        invalid(inferable_types(&infer_plan(&["near"]), &types, "people")),
        "edge type 'near' from_collection 'venues' does not match entity collection 'people'"
    );
    assert_eq!(find_type(&types, "near"), Some(1));
    let known = "people".to_string();
    assert_eq!(infer_collection(&infer_plan(&[]), Some(&known)).unwrap(), "people");
    assert_eq!(invalid(infer_collection(&infer_plan(&[]), None)), "entity 'p1' not found in any collection");
    assert_eq!(invalid(infer_vector("p1", &vec![])), "entity 'p1' has no dense vector representation");
    assert_eq!(infer_fetch_k(10), 40);
}

#[test]
fn edge_types_need_their_collections() {
    let p = CreateEdgeTypePlan {
        name: "likes".into(),
        from_collection: "people".into(),
        to_collection: "venues".into(),
        decay_config: None,
        inference_config: None,
    };
    let made = create_edge_type(&p, true, true).unwrap();
    assert_eq!(made.name, "likes");
    assert!(!made.inference_config.auto);
    match create_edge_type(&p, false, true) {
        Err(EngineError::CollectionNotFound(n)) => assert_eq!(n, "people"),
        other => panic!("{other:?}"),
    }
    match create_edge_type(&p, true, false) {
        Err(EngineError::CollectionNotFound(n)) => assert_eq!(n, "venues"),
        other => panic!("{other:?}"),
    }
    assert_eq!(message(&created_edge_type(&p)), text("Edge type 'likes' created (people -> venues)"));
    assert!(matches!(dropped_edge_type("likes", false), Err(EngineError::EdgeTypeNotFound(_))));
    assert_eq!(message(&dropped_edge_type("likes", true).unwrap()), text("Edge type 'likes' dropped"));
}

#[test]
fn inserted_edges_are_found() {
    let p = InsertEdgePlan {
        edge_type: "likes".into(),
        from_id: "p1".into(),
        to_id: "v1".into(),
        metadata: vec![("since".into(), Literal::Int(2020))],
    };
    let e = build_edge(&p, 99);
    assert_eq!(e.confidence, 1.0f32.to_bits());
    assert_eq!(e.source, EdgeSource::StructuralEdge);
    assert_eq!(e.created_at, 99);
    assert_eq!(e.metadata.get("since"), Some(&Value::Int(2020)));
    let mut adj = AdjacencyIndex::new();
    index_edge(&mut adj, &e);
    assert_eq!(adj.get(&id("p1"), "likes").len(), 1);
    assert_eq!(adj.get_backward(&id("v1"), "likes"), vec![id("p1")]);
    let mut rebuilt = AdjacencyIndex::new();
    index_edges(&mut rebuilt, &vec![build_edge(&p, 99)]);
    assert_eq!(rebuilt.get(&id("p1"), "likes").len(), 1);
    assert_eq!(message(&inserted_edge(&p)), text("Edge 'likes' created: p1 -> v1"));
    let d = DeleteEdgePlan { edge_type: "likes".into(), from_id: "p1".into(), to_id: "v1".into() };
    assert_eq!(message(&deleted_edge(&d)), text("Edge 'likes' deleted: p1 -> v1"));
    assert_eq!(acknowledged().rows[0].values.get("status"), Some(&text("OK")));
    let tiers = explain_tiers(1, 2, 3);
    assert_eq!(tiers.rows[2].values.get("entity_count"), Some(&Value::Int(3)));
    assert_eq!(tiers.rows[0].values.get("tier"), Some(&text("Hot")));
}

fn confirm_plan() -> ConfirmPlan {
    ConfirmPlan {
        edge_type: "likes".into(),
        from_id: "p1".into(),
        to_id: "v1".into(),
        confidence: 0.9f32.to_bits(),
        confidence_shown: "0.9".into(),
    }
}

#[test]
fn confirmation_makes_or_changes_an_edge() {
    let fresh = confirm(&confirm_plan(), None, 5).unwrap();
    assert_eq!(fresh.edge.source, EdgeSource::Confirmed);
    assert_eq!(fresh.record, RecordType::EdgeConfirm);
    assert!(!fresh.replaces);
    assert_eq!(message(&fresh.report), text("Edge 'likes' confirmed: p1 -> v1 (new Confirmed edge at 0.9)"));
    let old = inferred_edge(&id("p1"), "likes", &hit("v1", 0.6), 3);
    let changed = confirm(&confirm_plan(), Some(&old), 5).unwrap();
    assert_eq!(changed.edge.created_at, 5);
    assert_eq!(changed.edge.confidence, 0.9f32.to_bits());
    assert_eq!(
        message(&changed.report),
        text("Edge 'likes' confirmed: p1 -> v1 (was Inferred, now Confirmed at 0.9)")
    );
    let again = confirm(&confirm_plan(), Some(&fresh.edge), 9).unwrap();
    assert_eq!(again.edge.created_at, 5);
    assert_eq!(again.record, RecordType::EdgeConfidenceUpdate);
    assert_eq!(message(&again.report), text("Edge 'likes' re-confirmed: p1 -> v1 (confidence updated to 0.9)"));
    let mut adj = AdjacencyIndex::new();
    index_edge(&mut adj, &old);
    reindex(&mut adj, &changed);
    let entries = adj.get(&id("p1"), "likes");
    assert_eq!(entries.len(), 1);
    assert_eq!(entries[0].source, EdgeSource::Confirmed);
}

#[test]
fn structural_edges_are_not_confirmed() {
    let p = InsertEdgePlan {
        edge_type: "likes".into(),
        from_id: "p1".into(),
        to_id: "v1".into(),
        metadata: vec![],
    };
    let e = build_edge(&p, 1);
    assert_eq!(
        invalid(confirm(&confirm_plan(), Some(&e), 2)),
        "cannot CONFIRM structural edge 'likes' p1 -> v1 (already permanent at confidence 1.0)"
    );
}

#[test]
fn background_inference_takes_the_best() {
    let types = vec![edge_type("likes", "people", true), edge_type("near", "people", false)];
    let due: Vec<String> = types_to_infer(&types, "people").into_iter().map(|t| t.name).collect();
    assert_eq!(due, vec!["likes"]);
    let mut adj = AdjacencyIndex::new();
    adj.insert(&id("p1"), "likes", &id("v2"), 0, 0, EdgeSource::Inferred);
    let hits =
        vec![hit("p1", 1.0), hit("v1", 0.95), hit("v2", 0.9), hit("v3", 0.4), hit("v4", 0.7), hit("v5", 0.6)];
    let taken = edges_to_infer(&id("p1"), &types[0], &hits, &adj.get(&id("p1"), "likes"));
    let names: Vec<&str> = taken.iter().map(|h| h.id.as_str()).collect();
    assert_eq!(names, vec!["v1", "v4"]);
    let e = inferred_edge(&id("p1"), "likes", &taken[0], 8);
    assert_eq!(e.source, EdgeSource::Inferred);
    assert_eq!(e.confidence, 0.95f32.to_bits());
    assert_eq!(e.created_at, 8);
    assert!(is_pruned(&e, 0.1f32.to_bits(), 0.5f32.to_bits()));
    assert!(!is_pruned(&e, 0.5f32.to_bits(), 0.5f32.to_bits()));
    let fixed = confirm(&confirm_plan(), None, 5).unwrap().edge;
    assert!(!is_pruned(&fixed, 0.1f32.to_bits(), 0.5f32.to_bits()));
    assert!(matches!(find_collection_for_entity(&id("p1"), None), Err(EngineError::EntityNotFound(_))));
}

#[test]
fn stale_vectors_are_refreshed() {
    let stored = |fields: &[&str]| StoredRepresentation {
        name: "r".into(),
        model: None,
        dimensions: Some(1),
        metric: Metric::Cosine,
        sparse: false,
        fields: fields.iter().map(|s| s.to_string()).collect(),
        computed_at: 0,
        model_version: String::new(),
    };
    let schema = CollectionSchema {
        name: "venues".into(),
        representations: vec![stored(&[]), stored(&["name"])],
        fields: vec![],
        indexes: vec![],
        vectoriser_config: None,
    };
    assert!(!is_recomputable(&schema, 0));
    assert!(is_recomputable(&schema, 1));
    assert!(!is_recomputable(&schema, 2));
    let mut e = Entity::new(id("v1"));
    e.representations.push(Representation {
        name: "r".into(),
        repr_type: ReprType::Atomic,
        fields: vec!["name".into()],
        vector: VectorData::Dense(vec![0]),
        recipe_hash: [0; 32],
        state: ReprState::Dirty,
        computed_at: 0,
        model_version: String::new(),
    });
    let after = recomputed(&e, 0, VectorData::Dense(vec![1.0f32.to_bits()]), [3; 32]);
    assert!(matches!(&after.representations[0].vector, VectorData::Dense(v) if v == &vec![1.0f32.to_bits()]));
    assert_eq!(after.representations[0].recipe_hash, [3; 32]);
    assert_eq!(after.representations[0].state, ReprState::Clean);
}

#[test]
fn vectors_are_recomputed_where_they_can_be() {
    let schema = CollectionSchema {
        name: "venues".into(),
        representations: vec![StoredRepresentation {
            name: "r".into(),
            model: None,
            dimensions: Some(1),
            metric: Metric::Cosine,
            sparse: false,
            fields: vec!["name".into()],
            computed_at: 0,
            model_version: String::new(),
        }],
        fields: vec![],
        indexes: vec![],
        vectoriser_config: None,
    };
    assert!(is_recomputed(true, Some(&schema), 0, true));
    assert!(!is_recomputed(false, Some(&schema), 0, true));
    assert!(!is_recomputed(true, None, 0, true));
    assert!(!is_recomputed(true, Some(&schema), 1, true));
    assert!(!is_recomputed(true, Some(&schema), 0, false));
}

#[test]
fn only_types_with_a_threshold_are_swept() {
    let kept = edge_type("knows", "people", false);
    let mut decaying = edge_type("likes", "people", false);
    decaying.decay_config.prune_threshold = Some(0.25f64.to_bits());
    let swept = types_to_sweep(&vec![kept, decaying]);
    assert_eq!(swept.len(), 1);
    assert_eq!(swept[0].0.name, "likes");
    assert_eq!(swept[0].1, 0.25f64.to_bits());
    assert!(types_to_sweep(&vec![]).is_empty());
}
