//! SEARCH.

use trondb::error::EngineError;
use trondb::filter::WhereClause;
use trondb::location::LocState;
use trondb::result::QueryMode;
use trondb::rows::FieldList;
use trondb::search::{
    accept_dense, answered_hits, find_scoped, score_reaches, search_action, search_answer, search_fetch_k,
    search_pre_filter, searched_repr_index, text_search_key, Candidate, Hit, PreFilter, SearchAction, SearchPlan,
    SearchStrategy, TwoPass,
};
use trondb::types::{CollectionSchema, Entity, Metric, StoredRepresentation};
use trondb::value::{Literal, LogicalId, Value};

fn id(s: &str) -> LogicalId {
    LogicalId::from_string(s)
}

fn hit(s: &str, score: f32) -> Hit {
    Hit { id: id(s), score: score.to_bits() }
}

fn keys(names: &[&str]) -> Vec<String> {
    names.iter().map(|s| s.to_string()).collect()
}

fn plan(strategy: SearchStrategy) -> SearchPlan {
    SearchPlan {
        collection: "venues".into(),
        fields: FieldList::All,
        dense_vector: Some(vec![1.0f32.to_bits(), 0, 0]),
        sparse_vector: Some(vec![(3, 0.5f32.to_bits())]),
        pre_filter: None,
        k: 10,
        confidence_threshold: 0.0f64.to_bits(),
        confidence_shown: "0".into(),
        strategy,
        query_text: None,
        using_repr: None,
        hints: vec![],
        two_pass: None,
    }
}

fn repr(name: &str, sparse: bool, fields: &[&str]) -> StoredRepresentation {
    StoredRepresentation {
        name: name.into(),
        model: None,
        dimensions: if sparse { None } else { Some(3) },
        metric: Metric::Cosine,
        sparse,
        fields: keys(fields),
        computed_at: 0,
        model_version: String::new(),
    }
}

fn schema(reprs: Vec<StoredRepresentation>) -> CollectionSchema {
    CollectionSchema {
        name: "venues".into(),
        representations: reprs,
        fields: vec![],
        indexes: vec![],
        vectoriser_config: None,
    }
}

fn invalid<T: std::fmt::Debug>(r: Result<T, EngineError>) -> String {
    match r {
        Err(EngineError::InvalidQuery(m)) => m,
        other => panic!("{other:?}"),
    }
}

#[test]
fn dense_search_names_its_index() {
    let p = plan(SearchStrategy::Hnsw);
    match search_action(&p, None, &keys(&["other:x", "venues:a", "venues:b"]), &vec![]) {
        Ok(SearchAction::Dense { key, k }) => {
            assert_eq!(key, "venues:a");
            assert_eq!(k, 10);
        }
        other => panic!("{other:?}"),
    }
    assert_eq!(invalid(search_action(&p, None, &keys(&["venuesx:a"]), &vec![])), "no HNSW index for collection");
    let mut bare = plan(SearchStrategy::Hnsw);
    bare.dense_vector = None;
    assert_eq!(invalid(search_action(&bare, None, &vec![], &vec![])), "HNSW requires dense vector");
    assert_eq!(find_scoped(&keys(&["a:1", "b:2"]), "b:"), Some(1));
}

#[test]
fn sparse_and_hybrid_search_name_their_indexes() {
    let dense = keys(&["venues:d"]);
    let sparse = keys(&["venues:s"]);
    match search_action(&plan(SearchStrategy::Sparse), None, &dense, &sparse) {
        Ok(SearchAction::Sparse { key, .. }) => assert_eq!(key, "venues:s"),
        other => panic!("{other:?}"),
    }
    match search_action(&plan(SearchStrategy::Hybrid), None, &dense, &sparse) {
        Ok(SearchAction::Hybrid { dense_key, sparse_key, .. }) => {
            assert_eq!((dense_key.as_str(), sparse_key.as_str()), ("venues:d", "venues:s"));
        }
        other => panic!("{other:?}"),
    }
    assert_eq!(
        invalid(search_action(&plan(SearchStrategy::Sparse), None, &dense, &vec![])),
        "no SparseIndex for collection"
    );
    let mut bare = plan(SearchStrategy::Hybrid);
    bare.sparse_vector = None;
    assert_eq!(invalid(search_action(&bare, None, &dense, &sparse)), "Hybrid requires sparse vector");
    bare.strategy = SearchStrategy::Sparse;
    assert_eq!(invalid(search_action(&bare, None, &dense, &sparse)), "Sparse requires sparse vector");
    bare.dense_vector = None;
    bare.strategy = SearchStrategy::Hybrid;
    assert_eq!(invalid(search_action(&bare, None, &dense, &sparse)), "Hybrid requires dense vector");
}

#[test]
fn text_search_picks_a_representation() {
    let mut p = plan(SearchStrategy::NaturalLanguage);
    let s = schema(vec![repr("plain", false, &[]), repr("words", true, &["name"]), repr("semantic", false, &["name"])]);
    assert_eq!(
        invalid(search_action(&p, Some(&s), &vec![], &vec![])),
        "NaturalLanguage strategy requires query_text"
    );
    p.query_text = Some("jazz".into());
    match search_action(&p, Some(&s), &vec![], &vec![]) {
        Ok(SearchAction::Encode { repr, .. }) => assert_eq!(repr, "semantic"),
        other => panic!("{other:?}"),
    }
    assert!(matches!(search_action(&p, None, &vec![], &vec![]), Err(EngineError::CollectionNotFound(_))));
    let unmanaged = schema(vec![repr("plain", false, &[])]);
    assert_eq!(
        invalid(search_action(&p, Some(&unmanaged), &vec![], &vec![])),
        "no managed dense representation found for natural language SEARCH"
    );
    p.using_repr = Some("plain".into());
    match search_action(&p, Some(&s), &vec![], &vec![]) {
        Ok(SearchAction::Encode { repr, .. }) => assert_eq!(repr, "plain"),
        other => panic!("{other:?}"),
    }
    assert_eq!(invalid(text_search_key(&p, "r", false, true, true)), "no vectoriser registered for venues:r");
    assert_eq!(
        invalid(text_search_key(&p, "r", true, false, true)),
        "natural language SEARCH requires a dense vectoriser"
    );
    assert_eq!(invalid(text_search_key(&p, "r", true, true, false)), "no HNSW index for venues:r");
    assert_eq!(text_search_key(&p, "r", true, true, true).unwrap(), "venues:r");
}

#[test]
fn search_with_prefilter_narrows_results() {
    let london = || WhereClause::Eq("city".into(), Literal::String("London".into()));
    let mut p = plan(SearchStrategy::Hnsw);
    p.pre_filter = Some(PreFilter { index_name: "idx_city".into(), clause: london() });
    assert_eq!(search_fetch_k(&p), 40);
    assert_eq!(search_pre_filter(&p, true, true).unwrap(), Some(Value::String("London".into())));
    let candidates = vec![
        Candidate { hit: hit("v1", 1.0), state: None },
        Candidate { hit: hit("v2", 0.9), state: None },
        Candidate { hit: hit("v3", 0.8), state: Some(LocState::Clean) },
    ];
    let allowed = vec![id("v1"), id("v3")];
    let hits = answered_hits(&candidates, Some(&allowed), p.k);
    let names: Vec<&str> = hits.iter().map(|h| h.id.as_str()).collect();
    assert_eq!(names, vec!["v1", "v3"]);
    assert_eq!(invalid(search_pre_filter(&p, true, false)), "pre-filter index 'idx_city' not found");
    assert!(matches!(search_pre_filter(&p, false, true), Err(EngineError::CollectionNotFound(_))));
    p.pre_filter = Some(PreFilter { index_name: "i".into(), clause: WhereClause::IsNull("city".into()) });
    assert_eq!(invalid(search_pre_filter(&p, true, true)), "pre-filter only supports Eq");
    p.pre_filter = None;
    assert_eq!(search_pre_filter(&p, true, false).unwrap(), None);
    assert_eq!(search_fetch_k(&p), 10);
}

#[test]
fn stale_entities_are_left_out() {
    let candidates = vec![
        Candidate { hit: hit("v1", 1.0), state: Some(LocState::Dirty) },
        Candidate { hit: hit("v2", 0.9), state: Some(LocState::Clean) },
        Candidate { hit: hit("v3", 0.8), state: Some(LocState::Recomputing) },
        Candidate { hit: hit("v4", 0.7), state: None },
    ];
    let hits = answered_hits(&candidates, None, 10);
    let names: Vec<&str> = hits.iter().map(|h| h.id.as_str()).collect();
    assert_eq!(names, vec!["v2", "v4"]);
    assert_eq!(answered_hits(&candidates, None, 1).len(), 1);
    let s = schema(vec![repr("a", false, &[]), repr("semantic", false, &["name"])]);
    let p = plan(SearchStrategy::Hnsw);
    assert_eq!(searched_repr_index(&p, &s, &keys(&["venues:semantic"]), &vec![]), Some(1));
    assert_eq!(searched_repr_index(&p, &s, &keys(&["venues:gone"]), &vec![]), None);
}

#[test]
fn scores_below_the_threshold_are_dropped() {
    assert!(score_reaches(0.5f32.to_bits(), 0.5f64.to_bits()));
    assert!(!score_reaches(0.4f32.to_bits(), 0.5f64.to_bits()));
    assert!(score_reaches((-1.0f32).to_bits(), 0.0f64.to_bits()));
    assert!(!score_reaches(f32::NAN.to_bits(), 0.1f64.to_bits()));
    let mut p = plan(SearchStrategy::Hnsw);
    p.confidence_threshold = 0.8f64.to_bits();
    let hits = vec![hit("a", 0.9), hit("b", 0.85), hit("c", 0.5)];
    assert_eq!(accept_dense(&hits, &p).len(), 2);
    p.k = 1;
    p.two_pass = Some(TwoPass { first_pass_k: 30, use_binary_first_pass: true });
    assert_eq!(accept_dense(&hits, &p).len(), 1);
    match search_action(&p, None, &keys(&["venues:d"]), &vec![]) {
        Ok(SearchAction::Dense { k, .. }) => assert_eq!(k, 30),
        other => panic!("{other:?}"),
    }
}

#[test]
fn answers_carry_scores() {
    let mut e = Entity::new(id("v1"));
    e.metadata.insert("name".to_string(), Value::String("A".into()));
    let hits = vec![hit("v1", 0.9), hit("v2", 0.8)];
    let found = vec![Some(e), None];
    let r = search_answer(&hits, &found, &plan(SearchStrategy::Hnsw));
    assert_eq!(r.rows.len(), 1);
    assert_eq!(r.rows[0].score, Some(0.9f32.to_bits()));
    assert_eq!(r.mode, QueryMode::Probabilistic);
    assert_eq!(r.tier, "Ram");
    assert_eq!(r.entities_scanned, 2);
    assert_eq!(r.columns, vec!["id", "name"]);
    assert!(search_answer(&vec![], &vec![], &plan(SearchStrategy::Hnsw)).rows.is_empty());
}
