//! TRAVERSE and TRAVERSE MATCH.

use trondb::edge::{AdjacencyIndex, DecayConfig, EdgeSource, EdgeType, InferenceConfig};
use trondb::result::QueryResult;
use trondb::traverse::{
    edge_age, links, match_rule, traverse_rule, types_to_walk, EdgeDirection, Gate, Neighbour, TraverseMatchPlan,
    TraversePlan, Walk, MAX_HOPS,
};
use trondb::types::Entity;
use trondb::value::{LogicalId, Value};

fn id(s: &str) -> LogicalId {
    LogicalId::from_string(s)
}

fn graph(edges: &[(&str, &str)]) -> AdjacencyIndex {
    let mut adj = AdjacencyIndex::new();
    for (from, to) in edges {
        adj.insert(&id(from), "knows", &id(to), 1.0f32.to_bits(), 0, EdgeSource::StructuralEdge);
    }
    adj
}

/// A walk over edges of one type among entities that are all stored.
fn run(adj: &AdjacencyIndex, mut walk: Walk, direction: EdgeDirection) -> QueryResult {
    while walk.is_due() {
        let mut found: Vec<Neighbour> = Vec::new();
        for node in walk.frontier() {
            for link in links(adj, node, "knows", direction) {
                let entity = Some(Entity::new(link.id.clone()));
                found.push(Neighbour { id: link.id, confidence: link.entry.confidence, entity });
            }
        }
        walk.hop(&found);
    }
    walk.finish()
}

fn ids(r: &QueryResult) -> Vec<String> {
    r.rows
        .iter()
        .map(|row| match row.values.get("id") {
            Some(Value::String(s)) => s.clone(),
            other => panic!("{other:?}"),
        })
        .collect()
}

fn plan(from: &str, depth: usize, limit: Option<usize>) -> TraversePlan {
    TraversePlan { edge_type: "knows".into(), from_id: from.into(), depth, limit }
}

fn traverse(adj: &AdjacencyIndex, p: &TraversePlan) -> QueryResult {
    run(adj, Walk::start(&id(&p.from_id), p.depth, traverse_rule(p, None)), EdgeDirection::Forward)
}

fn match_plan(direction: EdgeDirection, min_depth: usize, max_depth: usize) -> TraverseMatchPlan {
    TraverseMatchPlan {
        from_id: "a".into(),
        edge_type: Some("knows".into()),
        direction,
        min_depth,
        max_depth,
        confidence_threshold: None,
        confidence_shown: None,
        limit: None,
    }
}

fn traverse_match(adj: &AdjacencyIndex, p: &TraverseMatchPlan) -> QueryResult {
    run(adj, Walk::start(&id(&p.from_id), p.max_depth, match_rule(p)), p.direction)
}

#[test]
fn hops_follow_edges() {
    let adj = graph(&[("a", "b"), ("b", "c"), ("c", "d")]);
    assert_eq!(ids(&traverse(&adj, &plan("a", 1, None))), vec!["b"]);
    assert_eq!(ids(&traverse(&adj, &plan("a", 3, None))), vec!["b", "c", "d"]);
    assert_eq!(ids(&traverse(&adj, &plan("a", 9, None))), vec!["b", "c", "d"]);
    assert!(traverse(&adj, &plan("d", 3, None)).rows.is_empty());
    assert!(traverse(&adj, &plan("a", 0, None)).rows.is_empty());
}

#[test]
fn nothing_is_visited_twice() {
    let adj = graph(&[("a", "b"), ("b", "c"), ("c", "a"), ("a", "c")]);
    assert_eq!(ids(&traverse(&adj, &plan("a", 5, None))), vec!["b", "c"]);
}

#[test]
fn rows_are_limited() {
    let adj = graph(&[("a", "b"), ("a", "c"), ("a", "d"), ("b", "e")]);
    assert_eq!(ids(&traverse(&adj, &plan("a", 2, Some(2)))), vec!["b", "c"]);
    assert_eq!(ids(&traverse(&adj, &plan("a", 2, None))), vec!["b", "c", "d", "e"]);
}

#[test]
fn depth_is_capped() {
    let names: Vec<String> = (0..15).map(|i| format!("n{i:02}")).collect();
    let edges: Vec<(&str, &str)> = names.windows(2).map(|w| (w[0].as_str(), w[1].as_str())).collect();
    let adj = graph(&edges);
    assert_eq!(traverse(&adj, &plan("n00", 100, None)).rows.len(), MAX_HOPS);
}

#[test]
fn directions_are_told_apart() {
    let adj = graph(&[("a", "b"), ("c", "a")]);
    assert_eq!(ids(&traverse_match(&adj, &match_plan(EdgeDirection::Forward, 1, 1))), vec!["b"]);
    assert_eq!(ids(&traverse_match(&adj, &match_plan(EdgeDirection::Backward, 1, 1))), vec!["c"]);
    assert_eq!(ids(&traverse_match(&adj, &match_plan(EdgeDirection::Undirected, 1, 1))), vec!["b", "c"]);
    let back = links(&adj, &id("a"), "knows", EdgeDirection::Backward);
    assert!(!back[0].forward);
    assert_eq!(back[0].entry.to_id, id("a"));
}

#[test]
fn matches_start_at_the_least_depth() {
    let adj = graph(&[("a", "b"), ("b", "c"), ("c", "d")]);
    let r = traverse_match(&adj, &match_plan(EdgeDirection::Forward, 2, 3));
    assert_eq!(ids(&r), vec!["c", "d"]);
    assert_eq!(r.rows[0].values.get("_depth"), Some(&Value::Int(2)));
    assert_eq!(r.rows[0].values.get("_edge.type"), Some(&Value::String("knows".into())));
    assert_eq!(r.rows[0].values.get("_edge.confidence"), Some(&Value::Float(1.0f64.to_bits())));
    assert_eq!(r.tier, "Ram");
}

#[test]
fn weak_edges_are_not_followed() {
    let mut adj = AdjacencyIndex::new();
    adj.insert(&id("a"), "knows", &id("b"), 0.2f32.to_bits(), 0, EdgeSource::Inferred);
    adj.insert(&id("a"), "knows", &id("c"), 0.9f32.to_bits(), 0, EdgeSource::Inferred);
    let mut p = match_plan(EdgeDirection::Forward, 1, 1);
    p.confidence_threshold = Some(0.5f32.to_bits());
    assert_eq!(ids(&traverse_match(&adj, &p)), vec!["c"]);
    let rule = traverse_rule(&plan("a", 1, None), Some(0.5f32.to_bits()));
    let r = run(&adj, Walk::start(&id("a"), 1, rule), EdgeDirection::Forward);
    assert_eq!(ids(&r), vec!["c"]);
    let nan = f32::NAN.to_bits();
    assert!(Gate::NotBelow(0.5f32.to_bits()).lets_pass(nan));
    assert!(!Gate::AtLeast(0.5f32.to_bits()).lets_pass(nan));
}

#[test]
fn missing_entities_are_passed_through() {
    let mut walk = Walk::start(&id("a"), 2, traverse_rule(&plan("a", 2, None), None));
    walk.hop(&vec![Neighbour { id: id("b"), confidence: 0, entity: None }]);
    assert_eq!(walk.frontier(), &vec![id("b")]);
    walk.hop(&vec![Neighbour { id: id("c"), confidence: 0, entity: Some(Entity::new(id("c"))) }]);
    assert!(!walk.is_due());
    let r = walk.finish();
    assert_eq!(ids(&r), vec!["c"]);
}

#[test]
fn ages_need_a_birth() {
    assert_eq!(edge_age(0, 500), None);
    assert_eq!(edge_age(200, 500), Some(300));
    assert_eq!(edge_age(900, 500), Some(0));
}

#[test]
fn every_type_is_walked_unless_one_is_named() {
    let make = |name: &str| EdgeType {
        name: name.into(),
        from_collection: "x".into(),
        to_collection: "y".into(),
        decay_config: DecayConfig {
            decay_fn: None,
            decay_rate: None,
            floor: None,
            promote_threshold: None,
            prune_threshold: None,
        },
        inference_config: InferenceConfig { auto: false, confidence_floor: 0, limit: 1 },
    };
    let types = vec![make("knows"), make("likes")];
    let mut p = match_plan(EdgeDirection::Forward, 1, 1);
    let named: Vec<String> = types_to_walk(&p, &types).into_iter().map(|t| t.name).collect();
    assert_eq!(named, vec!["knows"]);
    p.edge_type = None;
    assert_eq!(types_to_walk(&p, &types).len(), 2);
}

#[test]
fn nearer_nodes_come_first() {
    let adj = graph(&[("a", "z"), ("a", "b"), ("z", "y"), ("b", "c"), ("y", "x"), ("c", "x"), ("b", "z")]);
    let r = traverse_match(&adj, &match_plan(EdgeDirection::Forward, 1, 5));
    let depths: Vec<i64> = r
        .rows
        .iter()
        .map(|row| match row.values.get("_depth") {
            Some(Value::Int(n)) => *n,
            other => panic!("{other:?}"),
        })
        .collect();
    assert_eq!(depths, vec![1, 1, 2, 2, 3]);
    assert_eq!(ids(&r)[4], "x");
    let far = traverse_match(&adj, &match_plan(EdgeDirection::Forward, 2, 5));
    assert_eq!(far.rows.len(), 3);
    let few = traverse(&adj, &plan("a", 5, Some(3)));
    assert_eq!(few.rows.len(), 3);
    assert!(!ids(&few).contains(&"x".to_string()));
}
