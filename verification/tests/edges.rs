//! The index of edges.

use trondb::edge::{AdjacencyIndex, DecayConfig, DecayFn, DecayRule, EdgeSource, InferenceConfig};
use trondb::edge::{bounded_confidence, decay_parameters, decay_rule, step_decayed};
use trondb::value::LogicalId;

fn make_id(s: &str) -> LogicalId {
    LogicalId::from_string(s)
}

fn f(x: f32) -> u32 {
    x.to_bits()
}

#[test]
fn insert_and_get() {
    let mut idx = AdjacencyIndex::new();
    idx.insert(&make_id("v1"), "knows", &make_id("v2"), f(1.0), 0, EdgeSource::StructuralEdge);
    idx.insert(&make_id("v1"), "knows", &make_id("v3"), f(1.0), 0, EdgeSource::StructuralEdge);

    let results = idx.get(&make_id("v1"), "knows");
    assert_eq!(results.len(), 2);
}

#[test]
fn get_empty() {
    let idx = AdjacencyIndex::new();
    let results = idx.get(&make_id("v1"), "knows");
    assert!(results.is_empty());
}

#[test]
fn remove_edge() {
    let mut idx = AdjacencyIndex::new();
    idx.insert(&make_id("v1"), "knows", &make_id("v2"), f(1.0), 0, EdgeSource::StructuralEdge);
    idx.insert(&make_id("v1"), "knows", &make_id("v3"), f(1.0), 0, EdgeSource::StructuralEdge);

    idx.remove(&make_id("v1"), "knows", &make_id("v2"));
    let results = idx.get(&make_id("v1"), "knows");
    assert_eq!(results.len(), 1);
    assert_eq!(results[0].to_id, make_id("v3"));
}

#[test]
fn remove_last_edge_cleans_key() {
    let mut idx = AdjacencyIndex::new();
    idx.insert(&make_id("v1"), "knows", &make_id("v2"), f(1.0), 0, EdgeSource::StructuralEdge);
    idx.remove(&make_id("v1"), "knows", &make_id("v2"));
    assert!(idx.is_empty());
}

#[test]
fn different_edge_types_separate() {
    let mut idx = AdjacencyIndex::new();
    idx.insert(&make_id("v1"), "knows", &make_id("v2"), f(1.0), 0, EdgeSource::StructuralEdge);
    idx.insert(&make_id("v1"), "likes", &make_id("v3"), f(0.8), 0, EdgeSource::StructuralEdge);

    assert_eq!(idx.get(&make_id("v1"), "knows").len(), 1);
    assert_eq!(idx.get(&make_id("v1"), "likes").len(), 1);
}

#[test]
fn len_counts_all_edges() {
    let mut idx = AdjacencyIndex::new();
    idx.insert(&make_id("v1"), "knows", &make_id("v2"), f(1.0), 0, EdgeSource::StructuralEdge);
    idx.insert(&make_id("v1"), "knows", &make_id("v3"), f(1.0), 0, EdgeSource::StructuralEdge);
    idx.insert(&make_id("v2"), "likes", &make_id("v1"), f(0.5), 0, EdgeSource::StructuralEdge);
    assert_eq!(idx.len(), 3);
}

#[test]
fn backward_index_populated_on_insert() {
    let mut idx = AdjacencyIndex::new();
    idx.insert(&make_id("v1"), "knows", &make_id("v2"), f(1.0), 0, EdgeSource::StructuralEdge);
    let backwards = idx.get_backward(&make_id("v2"), "knows");
    assert_eq!(backwards.len(), 1);
    assert_eq!(backwards[0], make_id("v1"));
}

#[test]
fn backward_index_remove() {
    let mut idx = AdjacencyIndex::new();
    idx.insert(&make_id("v1"), "knows", &make_id("v2"), f(1.0), 0, EdgeSource::StructuralEdge);
    idx.remove(&make_id("v1"), "knows", &make_id("v2"));
    let backwards = idx.get_backward(&make_id("v2"), "knows");
    assert!(backwards.is_empty());
}

#[test]
fn edges_involving_entity() {
    let mut idx = AdjacencyIndex::new();
    idx.insert(&make_id("v1"), "knows", &make_id("v2"), f(1.0), 0, EdgeSource::StructuralEdge);
    idx.insert(&make_id("v3"), "knows", &make_id("v1"), f(1.0), 0, EdgeSource::StructuralEdge);
    idx.insert(&make_id("v1"), "likes", &make_id("v4"), f(1.0), 0, EdgeSource::StructuralEdge);

    let (forward, backward) = idx.edges_involving(&make_id("v1"));
    assert_eq!(forward.len(), 2);
    assert_eq!(backward.len(), 1);
    assert!(forward.contains(&("knows".to_string(), make_id("v2"))));
    assert!(forward.contains(&("likes".to_string(), make_id("v4"))));
    assert_eq!(backward[0], ("knows".to_string(), make_id("v3")));
}

#[test]
fn adj_entry_stores_created_at() {
    let mut idx = AdjacencyIndex::new();
    idx.insert(&make_id("v1"), "knows", &make_id("v2"), f(1.0), 42, EdgeSource::StructuralEdge);
    let results = idx.get(&make_id("v1"), "knows");
    assert_eq!(results.len(), 1);
    assert_eq!(results[0].created_at, 42);
}

#[test]
fn edge_source_defaults_to_structural() {
    let source = EdgeSource::default();
    assert_eq!(source, EdgeSource::StructuralEdge);
}

#[test]
fn inference_config_defaults_sensible() {
    let config = InferenceConfig::default();
    assert!(!config.auto);
    assert_eq!(f32::from_bits(config.confidence_floor), 0.5);
    assert_eq!(config.limit, 10);
}

#[test]
fn remove_edge_type_leaves_the_others() {
    let mut idx = AdjacencyIndex::default();
    idx.insert(&make_id("a"), "knows", &make_id("b"), f(1.0), 0, EdgeSource::StructuralEdge);
    idx.insert(&make_id("b"), "knows", &make_id("c"), f(1.0), 0, EdgeSource::Inferred);
    idx.insert(&make_id("a"), "likes", &make_id("b"), f(1.0), 0, EdgeSource::Confirmed);
    idx.remove_edge_type("knows");
    assert_eq!(idx.len(), 1);
    assert!(idx.get_backward(&make_id("c"), "knows").is_empty());
    assert_eq!(idx.get(&make_id("a"), "likes")[0].source, EdgeSource::Confirmed);
}

#[test]
fn removing_undoes_inserting() {
    let mut idx = AdjacencyIndex::new();
    idx.insert(&make_id("a"), "knows", &make_id("b"), f(1.0), 1, EdgeSource::StructuralEdge);
    idx.insert(&make_id("a"), "knows", &make_id("c"), f(0.5), 2, EdgeSource::StructuralEdge);
    idx.remove(&make_id("a"), "knows", &make_id("c"));
    let left = idx.get(&make_id("a"), "knows");
    assert_eq!(left.len(), 1);
    assert_eq!(left[0].to_id, make_id("b"));
    assert_eq!(left[0].confidence, f(1.0));
    assert!(idx.get_backward(&make_id("c"), "knows").is_empty());
}

/// The decay that the engine computes from the rules of the library.
fn effective_confidence(base: f32, elapsed_millis: u64, config: &DecayConfig) -> f32 {
    let (rate, floor) = decay_parameters(config);
    let secs = elapsed_millis as f64 / 1000.0;
    let r = f64::from_bits(rate);
    let decayed = match decay_rule(elapsed_millis, config) {
        DecayRule::Unchanged => return base,
        DecayRule::Exponential => (base as f64) * (-r * secs).exp(),
        DecayRule::Linear => (base as f64) * (1.0 - r * secs),
        DecayRule::Step => f64::from_bits(step_decayed(base.to_bits(), secs.to_bits(), rate, floor)),
    };
    f64::from_bits(bounded_confidence(decayed.to_bits(), floor)) as f32
}

fn decay(decay_fn: DecayFn, rate: f64, floor: f64, prune: Option<f64>) -> DecayConfig {
    DecayConfig {
        decay_fn: Some(decay_fn),
        decay_rate: Some(rate.to_bits()),
        floor: Some(floor.to_bits()),
        promote_threshold: None,
        prune_threshold: prune.map(|p| p.to_bits()),
    }
}

#[test]
fn exponential_decay() {
    let config = decay(DecayFn::Exponential, 0.001, 0.1, Some(0.05));
    let result = effective_confidence(1.0, 1_000_000, &config);
    assert!((result - 0.368).abs() < 0.01);
}

#[test]
fn linear_decay() {
    let config = decay(DecayFn::Linear, 0.001, 0.1, None);
    let result = effective_confidence(1.0, 500_000, &config);
    assert!((result - 0.5).abs() < 0.01);
}

#[test]
fn linear_decay_respects_floor() {
    let config = decay(DecayFn::Linear, 0.01, 0.2, None);
    let result = effective_confidence(1.0, 1_000_000, &config);
    assert!((result - 0.2).abs() < 0.01);
}

#[test]
fn step_decay() {
    let config = decay(DecayFn::Step, 3600.0, 0.1, None);
    assert!((effective_confidence(1.0, 1_000_000, &config) - 1.0).abs() < 0.01);
    assert!((effective_confidence(1.0, 5_000_000, &config) - 0.1).abs() < 0.01);
}

#[test]
fn no_decay_config_returns_original() {
    let config = DecayConfig::default();
    let result = effective_confidence(1.0, 999_999_999, &config);
    assert!((result - 1.0).abs() < 0.001);
}

#[test]
fn zero_elapsed_no_decay() {
    let config = decay(DecayFn::Exponential, 0.1, 0.0, None);
    let result = effective_confidence(1.0, 0, &config);
    assert!((result - 1.0).abs() < 0.001);
}

#[test]
fn confidence_stays_within_bounds() {
    let nan = f64::NAN.to_bits();
    assert_eq!(bounded_confidence(nan, 0.2f64.to_bits()), 0.2f64.to_bits());
    assert_eq!(bounded_confidence(1.5f64.to_bits(), 0.2f64.to_bits()), 1.0f64.to_bits());
    assert_eq!(bounded_confidence((-3.0f64).to_bits(), 0.2f64.to_bits()), 0.2f64.to_bits());
    assert_eq!(bounded_confidence(0.7f64.to_bits(), nan), 0.7f64.to_bits());
    assert_eq!(decay_parameters(&DecayConfig::default()), (0, 0));
}

#[test]
fn confidence_never_rises_with_time() {
    for (decay_fn, rate) in [(DecayFn::Exponential, 0.01), (DecayFn::Linear, 0.01), (DecayFn::Step, 60.0)] {
        let config = decay(decay_fn, rate, 0.2, None);
        let mut before = 0.9f32;
        for secs in [0u64, 1, 10, 60, 61, 100, 1000] {
            let now = effective_confidence(0.9, secs * 1000, &config);
            assert!(now <= before && now >= 0.2);
            before = now;
        }
    }
}
